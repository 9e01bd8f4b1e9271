//! The syntax tree: expressions, statements, blocks and programs, and the
//! text they are shown as.

use crate::text::{decimal_int, integer_to_string};
use vstd::prelude::*;

verus! {

/// A prefix operator.
#[derive(Debug, Clone, Copy, PartialEq, Eq, Structural)]
pub enum Prefix {
    Minus,
    Bang,
}

/// An infix operator.
#[derive(Debug, Clone, Copy, PartialEq, Eq, Structural)]
pub enum Infix {
    Eq,
    NotEq,
    Lt,
    Gt,
    Plus,
    Minus,
    Asterisk,
    Slash,
    LBracket,
}

/// An expression.
#[derive(Debug, PartialEq)]
pub enum Expression {
    Identifier(String),
    IntegerLiteral(i64),
    String(String),
    Bool(bool),
    Prefix(Prefix, Box<Expression>),
    Infix(Infix, Box<Expression>, Box<Expression>),
    If(Box<Expression>, Box<BlockStatement>, Option<Box<BlockStatement>>),
    FunctionLiteral(Vec<String>, Box<BlockStatement>),
    HashMapLiteral(Vec<(Expression, Expression)>),
    ArrayLiteral(Vec<Expression>),
    Index(Box<Expression>, Box<Expression>),
    Call(Box<Expression>, Vec<Expression>),
}

/// A statement.
#[derive(Debug, PartialEq)]
pub enum Statement {
    Let(String, Box<Expression>),
    Return(Option<Box<Expression>>),
    Expression(Box<Expression>),
}

/// The body of a conditional branch or of a function.
#[derive(Debug, PartialEq)]
pub struct BlockStatement {
    pub stmts: Vec<Statement>,
}

/// A whole parsed input.
#[derive(Debug, PartialEq)]
pub struct Program {
    pub stmts: Vec<Statement>,
}

/// An expression as a mathematical value. A block is the sequence of its
/// statements.
pub enum ExpressionView {
    Identifier(Seq<char>),
    IntegerLiteral(i64),
    String(Seq<char>),
    Bool(bool),
    Prefix(Prefix, Box<ExpressionView>),
    Infix(Infix, Box<ExpressionView>, Box<ExpressionView>),
    If(Box<ExpressionView>, Seq<StatementView>, Option<Seq<StatementView>>),
    FunctionLiteral(Seq<Seq<char>>, Seq<StatementView>),
    HashMapLiteral(Seq<(ExpressionView, ExpressionView)>),
    ArrayLiteral(Seq<ExpressionView>),
    Index(Box<ExpressionView>, Box<ExpressionView>),
    Call(Box<ExpressionView>, Seq<ExpressionView>),
}

/// A statement as a mathematical value.
pub enum StatementView {
    Let(Seq<char>, ExpressionView),
    Return(Option<ExpressionView>),
    Expression(ExpressionView),
}

/// The mathematical value of an expression.
pub open spec fn expression_view(e: Expression) -> ExpressionView
    decreases e,
{
    match e {
        Expression::Identifier(name) => ExpressionView::Identifier(name@),
        Expression::IntegerLiteral(i) => ExpressionView::IntegerLiteral(i),
        Expression::String(s) => ExpressionView::String(s@),
        Expression::Bool(b) => ExpressionView::Bool(b),
        Expression::Prefix(op, operand) => ExpressionView::Prefix(
            op,
            Box::new(expression_view(*operand)),
        ),
        Expression::Infix(op, left, right) => ExpressionView::Infix(
            op,
            Box::new(expression_view(*left)),
            Box::new(expression_view(*right)),
        ),
        Expression::If(condition, then, otherwise) => ExpressionView::If(
            Box::new(expression_view(*condition)),
            statements_view(then.stmts),
            match otherwise {
                Some(block) => Some(statements_view(block.stmts)),
                None => None,
            },
        ),
        Expression::FunctionLiteral(parameters, body) => ExpressionView::FunctionLiteral(
            names_view(parameters),
            statements_view(body.stmts),
        ),
        Expression::HashMapLiteral(pairs) => ExpressionView::HashMapLiteral(pairs_view(pairs)),
        Expression::ArrayLiteral(members) => ExpressionView::ArrayLiteral(
            expressions_view(members),
        ),
        Expression::Index(container, index) => ExpressionView::Index(
            Box::new(expression_view(*container)),
            Box::new(expression_view(*index)),
        ),
        Expression::Call(callee, arguments) => ExpressionView::Call(
            Box::new(expression_view(*callee)),
            expressions_view(arguments),
        ),
    }
}

/// The mathematical value of a statement.
pub open spec fn statement_view(s: Statement) -> StatementView
    decreases s,
{
    match s {
        Statement::Let(name, value) => StatementView::Let(name@, expression_view(*value)),
        Statement::Return(Some(value)) => StatementView::Return(Some(expression_view(*value))),
        Statement::Return(None) => StatementView::Return(None),
        Statement::Expression(value) => StatementView::Expression(expression_view(*value)),
    }
}

/// The mathematical value of a list of names.
pub open spec fn names_view(names: Vec<String>) -> Seq<Seq<char>> {
    Seq::new(names@.len(), |i: int| names@[i]@)
}

/// The mathematical value of a list of expressions.
pub open spec fn expressions_view(es: Vec<Expression>) -> Seq<ExpressionView>
    decreases es,
{
    Seq::new(
        es@.len(),
        |i: int|
            if 0 <= i < es@.len() {
                expression_view(es@[i])
            } else {
                ExpressionView::Bool(false)
            },
    )
}

/// The mathematical value of a list of pairs of expressions.
pub open spec fn pairs_view(pairs: Vec<(Expression, Expression)>) -> Seq<
    (ExpressionView, ExpressionView),
>
    decreases pairs,
{
    Seq::new(
        pairs@.len(),
        |i: int|
            if 0 <= i < pairs@.len() {
                (expression_view(pairs@[i].0), expression_view(pairs@[i].1))
            } else {
                (ExpressionView::Bool(false), ExpressionView::Bool(false))
            },
    )
}

/// The mathematical value of a list of statements.
pub open spec fn statements_view(stmts: Vec<Statement>) -> Seq<StatementView>
    decreases stmts,
{
    Seq::new(
        stmts@.len(),
        |i: int|
            if 0 <= i < stmts@.len() {
                statement_view(stmts@[i])
            } else {
                StatementView::Return(None)
            },
    )
}

impl View for Expression {
    type V = ExpressionView;

    open spec fn view(&self) -> ExpressionView {
        expression_view(*self)
    }
}

impl View for Statement {
    type V = StatementView;

    open spec fn view(&self) -> StatementView {
        statement_view(*self)
    }
}

impl View for BlockStatement {
    type V = Seq<StatementView>;

    open spec fn view(&self) -> Seq<StatementView> {
        statements_view(self.stmts)
    }
}

impl View for Program {
    type V = Seq<StatementView>;

    open spec fn view(&self) -> Seq<StatementView> {
        statements_view(self.stmts)
    }
}

/// Copies a list of names.
pub fn clone_names(names: &Vec<String>) -> (copy: Vec<String>)
    ensures
        names_view(copy) == names_view(*names),
{
    let mut copy: Vec<String> = Vec::new();
    let mut i: usize = 0;
    while i < names.len()
        invariant
            i <= names.len(),
            copy@.len() == i,
            forall|j: int| 0 <= j < i ==> copy@[j]@ == names@[j]@,
        decreases names.len() - i,
    {
        copy.push(names[i].clone());
        i = i + 1;
    }
    proof {
        assert(names_view(copy) =~= names_view(*names));
    }
    copy
}

/// Copies an expression.
pub fn clone_expression(e: &Expression) -> (copy: Expression)
    ensures
        copy@ == e@,
    decreases e,
{
    match e {
        Expression::Identifier(name) => Expression::Identifier(name.clone()),
        Expression::IntegerLiteral(i) => Expression::IntegerLiteral(*i),
        Expression::String(s) => Expression::String(s.clone()),
        Expression::Bool(b) => Expression::Bool(*b),
        Expression::Prefix(op, operand) => Expression::Prefix(
            *op,
            Box::new(clone_expression(operand)),
        ),
        Expression::Infix(op, left, right) => Expression::Infix(
            *op,
            Box::new(clone_expression(left)),
            Box::new(clone_expression(right)),
        ),
        Expression::If(condition, then, otherwise) => {
            let otherwise_copy = match otherwise {
                Some(block) => Some(Box::new(clone_block(block))),
                None => None,
            };
            Expression::If(
                Box::new(clone_expression(condition)),
                Box::new(clone_block(then)),
                otherwise_copy,
            )
        },
        Expression::FunctionLiteral(parameters, body) => Expression::FunctionLiteral(
            clone_names(parameters),
            Box::new(clone_block(body)),
        ),
        Expression::HashMapLiteral(pairs) => Expression::HashMapLiteral(clone_pairs(pairs)),
        Expression::ArrayLiteral(members) => Expression::ArrayLiteral(clone_expressions(members)),
        Expression::Index(container, index) => Expression::Index(
            Box::new(clone_expression(container)),
            Box::new(clone_expression(index)),
        ),
        Expression::Call(callee, arguments) => Expression::Call(
            Box::new(clone_expression(callee)),
            clone_expressions(arguments),
        ),
    }
}

/// Copies a list of expressions.
pub fn clone_expressions(es: &Vec<Expression>) -> (copy: Vec<Expression>)
    ensures
        expressions_view(copy) == expressions_view(*es),
    decreases es,
{
    let mut copy: Vec<Expression> = Vec::new();
    let mut i: usize = 0;
    while i < es.len()
        invariant
            i <= es.len(),
            copy@.len() == i,
            forall|j: int| 0 <= j < i ==> copy@[j]@ == es@[j]@,
        decreases es.len() - i,
    {
        copy.push(clone_expression(&es[i]));
        i = i + 1;
    }
    proof {
        assert(expressions_view(copy) =~= expressions_view(*es));
    }
    copy
}

/// Copies a list of pairs of expressions.
pub fn clone_pairs(pairs: &Vec<(Expression, Expression)>) -> (copy: Vec<(Expression, Expression)>)
    ensures
        pairs_view(copy) == pairs_view(*pairs),
    decreases pairs,
{
    let mut copy: Vec<(Expression, Expression)> = Vec::new();
    let mut i: usize = 0;
    while i < pairs.len()
        invariant
            i <= pairs.len(),
            copy@.len() == i,
            forall|j: int|
                0 <= j < i ==> copy@[j].0@ == pairs@[j].0@ && copy@[j].1@ == pairs@[j].1@,
        decreases pairs.len() - i,
    {
        let key = clone_expression(&pairs[i].0);
        let value = clone_expression(&pairs[i].1);
        copy.push((key, value));
        i = i + 1;
    }
    proof {
        assert(pairs_view(copy) =~= pairs_view(*pairs));
    }
    copy
}

/// Copies a statement.
pub fn clone_statement(s: &Statement) -> (copy: Statement)
    ensures
        copy@ == s@,
    decreases s,
{
    match s {
        Statement::Let(name, value) => Statement::Let(
            name.clone(),
            Box::new(clone_expression(value)),
        ),
        Statement::Return(Some(value)) => Statement::Return(
            Some(Box::new(clone_expression(value))),
        ),
        Statement::Return(None) => Statement::Return(None),
        Statement::Expression(value) => Statement::Expression(Box::new(clone_expression(value))),
    }
}

/// Copies a block.
pub fn clone_block(block: &BlockStatement) -> (copy: BlockStatement)
    ensures
        copy@ == block@,
    decreases block,
{
    let mut stmts: Vec<Statement> = Vec::new();
    let mut i: usize = 0;
    while i < block.stmts.len()
        invariant
            i <= block.stmts.len(),
            stmts@.len() == i,
            forall|j: int| 0 <= j < i ==> stmts@[j]@ == block.stmts@[j]@,
        decreases block.stmts.len() - i,
    {
        stmts.push(clone_statement(&block.stmts[i]));
        i = i + 1;
    }
    proof {
        assert(statements_view(stmts) =~= statements_view(block.stmts));
    }
    BlockStatement { stmts }
}

impl Clone for Expression {
    fn clone(&self) -> (copy: Self)
        ensures
            copy@ == self@,
    {
        clone_expression(self)
    }
}

impl Clone for Statement {
    fn clone(&self) -> (copy: Self)
        ensures
            copy@ == self@,
    {
        clone_statement(self)
    }
}

impl Clone for BlockStatement {
    fn clone(&self) -> (copy: Self)
        ensures
            copy@ == self@,
    {
        clone_block(self)
    }
}

/// The spelling of a prefix operator.
pub open spec fn prefix_text(op: Prefix) -> Seq<char> {
    match op {
        Prefix::Minus => "-"@,
        Prefix::Bang => "!"@,
    }
}

/// The spelling of an infix operator.
pub open spec fn infix_text(op: Infix) -> Seq<char> {
    match op {
        Infix::Eq => "=="@,
        Infix::NotEq => "!="@,
        Infix::Lt => "<"@,
        Infix::Gt => ">"@,
        Infix::Plus => "+"@,
        Infix::Minus => "-"@,
        Infix::Asterisk => "*"@,
        Infix::Slash => "/"@,
        Infix::LBracket => "["@,
    }
}

/// The names from the index `from` on, with a comma between each two.
pub open spec fn names_text(names: Seq<Seq<char>>, from: int) -> Seq<char>
    decreases names.len() - from,
{
    if !(0 <= from < names.len()) {
        Seq::empty()
    } else if from == names.len() - 1 {
        names[from]
    } else {
        names[from] + (","@ + names_text(names, from + 1))
    }
}

/// The text of an expression.
///
/// Literals and identifiers are shown as written, strings between double
/// quotes. An operator expression stands inside parentheses: a prefix
/// operator directly before its operand, an infix operator between its
/// operands with a space on either side. The items of a list are separated
/// by commas, without spaces. The text is one that the lexer and the parser
/// read back as the expression.
pub open spec fn expression_text(e: ExpressionView) -> Seq<char>
    decreases e, 0nat,
{
    match e {
        ExpressionView::Identifier(name) => name,
        ExpressionView::IntegerLiteral(i) => decimal_int(i as int),
        ExpressionView::String(s) => "\""@ + (s + "\""@),
        ExpressionView::Bool(b) => if b {
            "true"@
        } else {
            "false"@
        },
        ExpressionView::Prefix(op, operand) => "("@ + (prefix_text(op) + (expression_text(
            *operand,
        ) + ")"@)),
        ExpressionView::Infix(op, left, right) => "("@ + (expression_text(*left) + (" "@ + (
        infix_text(op) + (" "@ + (expression_text(*right) + ")"@))))),
        ExpressionView::If(condition, then, otherwise) => "if"@ + (" "@ + ("("@ + (
        expression_text(*condition) + (")"@ + (" "@ + (block_text(then) + otherwise_text(
            otherwise,
        ))))))),
        ExpressionView::FunctionLiteral(parameters, body) => "fn"@ + ("("@ + (names_text(
            parameters,
            0,
        ) + (")"@ + block_text(body)))),
        ExpressionView::HashMapLiteral(pairs) => "{"@ + (pairs_text(pairs, 0) + "}"@),
        ExpressionView::ArrayLiteral(members) => "["@ + (expressions_text(members, 0) + "]"@),
        ExpressionView::Index(container, index) => expression_text(*container) + ("["@ + (
        expression_text(*index) + "]"@)),
        ExpressionView::Call(callee, arguments) => expression_text(*callee) + ("("@ + (
        expressions_text(arguments, 0) + ")"@)),
    }
}

/// The text of the second branch of a conditional: `else` between spaces
/// and the block, or nothing.
pub open spec fn otherwise_text(otherwise: Option<Seq<StatementView>>) -> Seq<char>
    decreases otherwise, 0nat,
{
    match otherwise {
        Some(block) => " "@ + ("else"@ + (" "@ + block_text(block))),
        None => Seq::empty(),
    }
}

/// The texts of the expressions from the index `from` on, with a comma
/// between each two.
pub open spec fn expressions_text(es: Seq<ExpressionView>, from: int) -> Seq<char>
    decreases es, es.len() - from,
{
    if !(0 <= from < es.len()) {
        Seq::empty()
    } else if from == es.len() - 1 {
        expression_text(es[from])
    } else {
        expression_text(es[from]) + (","@ + expressions_text(es, from + 1))
    }
}

/// The pairs of a hash literal from the index `from` on, each as key, colon
/// and value, with a comma between each two.
pub open spec fn pairs_text(pairs: Seq<(ExpressionView, ExpressionView)>, from: int) -> Seq<char>
    decreases pairs, pairs.len() - from,
{
    if !(0 <= from < pairs.len()) {
        Seq::empty()
    } else {
        expression_text(pairs[from].0) + (":"@ + (expression_text(pairs[from].1) + (if from
            == pairs.len() - 1 {
            Seq::empty()
        } else {
            ","@ + pairs_text(pairs, from + 1)
        })))
    }
}

/// The text of a statement, which ends in a semicolon.
pub open spec fn statement_text(s: StatementView) -> Seq<char>
    decreases s, 0nat,
{
    match s {
        StatementView::Let(name, value) => "let"@ + (" "@ + (name + (" "@ + ("="@ + (" "@ + (
        expression_text(value) + ";"@)))))),
        StatementView::Return(None) => "return"@ + ";"@,
        StatementView::Return(Some(value)) => "return"@ + (" "@ + (expression_text(value)
            + ";"@)),
        StatementView::Expression(value) => expression_text(value) + ";"@,
    }
}

/// The texts of the statements from the index `from` on, one after the
/// other.
pub open spec fn statements_text(stmts: Seq<StatementView>, from: int) -> Seq<char>
    decreases stmts, stmts.len() - from,
{
    if !(0 <= from < stmts.len()) {
        Seq::empty()
    } else {
        statement_text(stmts[from]) + statements_text(stmts, from + 1)
    }
}

/// The text of a block: its statements between braces.
pub open spec fn block_text(stmts: Seq<StatementView>) -> Seq<char>
    decreases stmts, stmts.len() + 1,
{
    "{"@ + (statements_text(stmts, 0) + "}"@)
}

impl Prefix {
    /// Shows the operator as text.
    pub fn to_string(&self) -> (text: String)
        ensures
            text@ == prefix_text(*self),
    {
        match self {
            Prefix::Minus => String::from_str("-"),
            Prefix::Bang => String::from_str("!"),
        }
    }
}

impl Infix {
    /// Shows the operator as text.
    pub fn to_string(&self) -> (text: String)
        ensures
            text@ == infix_text(*self),
    {
        match self {
            Infix::Eq => String::from_str("=="),
            Infix::NotEq => String::from_str("!="),
            Infix::Lt => String::from_str("<"),
            Infix::Gt => String::from_str(">"),
            Infix::Plus => String::from_str("+"),
            Infix::Minus => String::from_str("-"),
            Infix::Asterisk => String::from_str("*"),
            Infix::Slash => String::from_str("/"),
            Infix::LBracket => String::from_str("["),
        }
    }
}

/// Appends names to `out`, with a comma between each two.
pub fn write_names(names: &Vec<String>, out: &mut String)
    ensures
        final(out)@ == old(out)@ + names_text(names_view(*names), 0),
{
    let ghost all = names_view(*names);
    let mut i: usize = 0;
    while i < names.len()
        invariant
            i <= names.len(),
            all == names_view(*names),
            out@ + names_text(all, i as int) == old(out)@ + names_text(all, 0),
        decreases names.len() - i,
    {
        let ghost before = out@;
        out.append(names[i].as_str());
        if i + 1 < names.len() {
            out.append(",");
            proof {
                assert(out@ + names_text(all, i + 1) =~= before + names_text(all, i as int));
            }
        } else {
            proof {
                assert(out@ + names_text(all, i + 1) =~= before + names_text(all, i as int));
            }
        }
        i = i + 1;
    }
    proof {
        assert(out@ + names_text(all, i as int) =~= out@);
    }
}

/// Appends the text of a prefix expression to `out`.
fn write_prefix(e: &Expression, out: &mut String)
    requires
        e is Prefix,
    ensures
        final(out)@ == old(out)@ + expression_text(e@),
    decreases e, 0nat,
{
    match e {
        Expression::Prefix(op, operand) => {
            out.append("(");
            out.append(op.to_string().as_str());
            write_expression(operand, out);
            out.append(")");
        },
        _ => {},
    }
}

/// Appends the text of an infix expression to `out`.
fn write_infix(e: &Expression, out: &mut String)
    requires
        e is Infix,
    ensures
        final(out)@ == old(out)@ + expression_text(e@),
    decreases e, 0nat,
{
    match e {
        Expression::Infix(op, left, right) => {
            out.append("(");
            write_expression(left, out);
            out.append(" ");
            out.append(op.to_string().as_str());
            out.append(" ");
            write_expression(right, out);
            out.append(")");
        },
        _ => {},
    }
}

/// Appends the text of a conditional to `out`.
fn write_conditional(e: &Expression, out: &mut String)
    requires
        e is If,
    ensures
        final(out)@ == old(out)@ + expression_text(e@),
    decreases e, 0nat,
{
    match e {
        Expression::If(condition, then, otherwise) => {
            out.append("if");
            out.append(" ");
            out.append("(");
            write_expression(condition, out);
            out.append(")");
            out.append(" ");
            write_block(then, out);
            let ghost before = out@;
            match otherwise {
                Some(block) => {
                    out.append(" ");
                    out.append("else");
                    out.append(" ");
                    write_block(block, out);
                },
                None => {},
            }
            proof {
                assert(out@ =~= before + otherwise_text(e@->If_2));
            }
        },
        _ => {},
    }
}

/// Appends the text of a function literal to `out`.
fn write_function(e: &Expression, out: &mut String)
    requires
        e is FunctionLiteral,
    ensures
        final(out)@ == old(out)@ + expression_text(e@),
    decreases e, 0nat,
{
    match e {
        Expression::FunctionLiteral(parameters, body) => {
            out.append("fn");
            out.append("(");
            write_names(parameters, out);
            out.append(")");
            write_block(body, out);
        },
        _ => {},
    }
}

/// Appends the text of an expression to `out`.
pub fn write_expression(e: &Expression, out: &mut String)
    ensures
        final(out)@ == old(out)@ + expression_text(e@),
    decreases e, 1nat,
{
    match e {
        Expression::Identifier(name) => {
            out.append(name.as_str());
        },
        Expression::IntegerLiteral(i) => {
            let numeral = integer_to_string(*i);
            out.append(numeral.as_str());
        },
        Expression::String(s) => {
            out.append("\"");
            out.append(s.as_str());
            out.append("\"");
        },
        Expression::Bool(b) => {
            if *b {
                out.append("true");
            } else {
                out.append("false");
            }
        },
        Expression::Prefix(_, _) => {
            write_prefix(e, out);
        },
        Expression::Infix(_, _, _) => {
            write_infix(e, out);
        },
        Expression::If(_, _, _) => {
            write_conditional(e, out);
        },
        Expression::FunctionLiteral(_, _) => {
            write_function(e, out);
        },
        Expression::HashMapLiteral(pairs) => {
            out.append("{");
            write_pairs(pairs, out);
            out.append("}");
        },
        Expression::ArrayLiteral(members) => {
            out.append("[");
            write_expressions(members, out);
            out.append("]");
        },
        Expression::Index(container, index) => {
            write_expression(container, out);
            out.append("[");
            write_expression(index, out);
            out.append("]");
        },
        Expression::Call(callee, arguments) => {
            write_expression(callee, out);
            out.append("(");
            write_expressions(arguments, out);
            out.append(")");
        },
    }
}

/// Appends the texts of expressions to `out`, with a comma between each two.
pub fn write_expressions(es: &Vec<Expression>, out: &mut String)
    ensures
        final(out)@ == old(out)@ + expressions_text(expressions_view(*es), 0),
    decreases es, 0nat,
{
    let ghost all = expressions_view(*es);
    let mut i: usize = 0;
    while i < es.len()
        invariant
            i <= es.len(),
            all == expressions_view(*es),
            out@ + expressions_text(all, i as int) == old(out)@ + expressions_text(all, 0),
        decreases es.len() - i,
    {
        let ghost before = out@;
        write_expression(&es[i], out);
        if i + 1 < es.len() {
            out.append(",");
        }
        proof {
            assert(out@ + expressions_text(all, i + 1) =~= before + expressions_text(
                all,
                i as int,
            ));
        }
        i = i + 1;
    }
    proof {
        assert(out@ + expressions_text(all, i as int) =~= out@);
    }
}

/// Appends the pairs of a hash literal to `out`, with a comma between each
/// two.
pub fn write_pairs(pairs: &Vec<(Expression, Expression)>, out: &mut String)
    ensures
        final(out)@ == old(out)@ + pairs_text(pairs_view(*pairs), 0),
    decreases pairs, 0nat,
{
    let ghost all = pairs_view(*pairs);
    let mut i: usize = 0;
    while i < pairs.len()
        invariant
            i <= pairs.len(),
            all == pairs_view(*pairs),
            out@ + pairs_text(all, i as int) == old(out)@ + pairs_text(all, 0),
        decreases pairs.len() - i,
    {
        let ghost before = out@;
        write_expression(&pairs[i].0, out);
        out.append(":");
        write_expression(&pairs[i].1, out);
        if i + 1 < pairs.len() {
            out.append(",");
        }
        proof {
            assert(all[i as int] == (pairs@[i as int].0@, pairs@[i as int].1@));
            assert(out@ + pairs_text(all, i + 1) =~= before + pairs_text(all, i as int));
        }
        i = i + 1;
    }
    proof {
        assert(out@ + pairs_text(all, i as int) =~= out@);
    }
}

/// Appends the text of a statement to `out`.
pub fn write_statement(s: &Statement, out: &mut String)
    ensures
        final(out)@ == old(out)@ + statement_text(s@),
    decreases s, 0nat,
{
    match s {
        Statement::Let(name, value) => {
            out.append("let");
            out.append(" ");
            out.append(name.as_str());
            out.append(" ");
            out.append("=");
            out.append(" ");
            write_expression(value, out);
            out.append(";");
        },
        Statement::Return(None) => {
            out.append("return");
            out.append(";");
        },
        Statement::Return(Some(value)) => {
            out.append("return");
            out.append(" ");
            write_expression(value, out);
            out.append(";");
        },
        Statement::Expression(value) => {
            write_expression(value, out);
            out.append(";");
        },
    }
}

/// Appends the texts of statements to `out`, one after the other.
pub fn write_statements(stmts: &Vec<Statement>, out: &mut String)
    ensures
        final(out)@ == old(out)@ + statements_text(statements_view(*stmts), 0),
    decreases stmts, 0nat,
{
    let ghost all = statements_view(*stmts);
    let mut i: usize = 0;
    while i < stmts.len()
        invariant
            i <= stmts.len(),
            all == statements_view(*stmts),
            out@ + statements_text(all, i as int) == old(out)@ + statements_text(all, 0),
        decreases stmts.len() - i,
    {
        let ghost before = out@;
        write_statement(&stmts[i], out);
        proof {
            assert(out@ + statements_text(all, i + 1) =~= before + statements_text(
                all,
                i as int,
            ));
        }
        i = i + 1;
    }
    proof {
        assert(out@ + statements_text(all, i as int) =~= out@);
    }
}

/// Appends the text of a block to `out`.
pub fn write_block(block: &BlockStatement, out: &mut String)
    ensures
        final(out)@ == old(out)@ + block_text(block@),
    decreases block, 1nat,
{
    out.append("{");
    write_statements(&block.stmts, out);
    out.append("}");
}

impl Expression {
    /// Shows the expression as text.
    pub fn to_string(&self) -> (text: String)
        ensures
            text@ == expression_text(self@),
    {
        let mut text = String::new();
        write_expression(self, &mut text);
        text
    }
}

impl Statement {
    /// Shows the statement as text.
    pub fn to_string(&self) -> (text: String)
        ensures
            text@ == statement_text(self@),
    {
        let mut text = String::new();
        write_statement(self, &mut text);
        text
    }
}

impl BlockStatement {
    /// Shows the block as text.
    pub fn to_string(&self) -> (text: String)
        ensures
            text@ == block_text(self@),
    {
        let mut text = String::new();
        write_block(self, &mut text);
        text
    }
}

impl Program {
    /// Shows the program as text: its statements, one after the other.
    pub fn to_string(&self) -> (text: String)
        ensures
            text@ == statements_text(self@, 0),
    {
        let mut text = String::new();
        write_statements(&self.stmts, &mut text);
        text
    }
}

} // verus!
