//! The parser: tokens to a syntax tree, by recursive descent with
//! precedence climbing for operators.
//!
//! The parser looks at one token, the current one, and can look one token
//! further. Each parsing method starts with the first token of what it
//! parses as the current token and, on success, ends with the last token of
//! what it parsed as the current token; `parse_block_statement` alone starts
//! one token before the opening brace. What each method accepts is what the
//! grammar gives for the tokens from its starting point.

use crate::ast::{
    expressions_view, names_view, pairs_view, statements_view, BlockStatement, Expression,
    ExpressionView, Infix, Prefix, Program, Statement, StatementView,
};
use crate::grammar::{
    arguments_at, array_at, block_at, call_at, conditional_at, error_at, expression_at,
    expression_statement_at, expressions_until, function_at, group_at, hash_at, infix_of, let_at,
    names_until, operator_at, operators_from, pair_at, pairs_until, parameters_at, precedence_of,
    prefix_at, program_from, rank, return_at, statement_at, statements_to_end,
    statements_until_brace, subscript_at, Parsed, ParseErrorView, Precedence,
};
use crate::lexer::{token_at, token_text, Lexer, Token, TokenView};
use vstd::prelude::*;

verus! {

/// A token that fits no rule of the grammar, and its index among the tokens.
#[derive(Debug)]
pub struct ParseError {
    pub token: Token,
    pub position: usize,
}

impl View for ParseError {
    type V = ParseErrorView;

    open spec fn view(&self) -> ParseErrorView {
        ParseErrorView { token: self.token@, position: self.position as int }
    }
}

impl ParseError {
    /// Shows the error as text.
    pub fn to_string(&self) -> (text: String)
        ensures
            text@ == "Problem parsing near token "@ + token_text(self.token@),
    {
        let mut text = String::from_str("Problem parsing near token ");
        text.append(self.token.to_string().as_str());
        text
    }
}

/// Whether two tokens are equal.
pub fn same_token(a: &Token, b: &Token) -> (same: bool)
    ensures
        same == (a@ == b@),
{
    match (a, b) {
        (Token::Eof, Token::Eof) => true,
        (Token::Identifiere(x), Token::Identifiere(y)) => *x == *y,
        (Token::String(x), Token::String(y)) => *x == *y,
        (Token::Integer(x), Token::Integer(y)) => *x == *y,
        (Token::Assign, Token::Assign) => true,
        (Token::Plus, Token::Plus) => true,
        (Token::Bang, Token::Bang) => true,
        (Token::Minus, Token::Minus) => true,
        (Token::Slash, Token::Slash) => true,
        (Token::Asterisk, Token::Asterisk) => true,
        (Token::Lt, Token::Lt) => true,
        (Token::Gt, Token::Gt) => true,
        (Token::Eq, Token::Eq) => true,
        (Token::NotEq, Token::NotEq) => true,
        (Token::Comma, Token::Comma) => true,
        (Token::Colon, Token::Colon) => true,
        (Token::Let, Token::Let) => true,
        (Token::True, Token::True) => true,
        (Token::False, Token::False) => true,
        (Token::If, Token::If) => true,
        (Token::Else, Token::Else) => true,
        (Token::Ret, Token::Ret) => true,
        (Token::Semicolon, Token::Semicolon) => true,
        (Token::LParen, Token::LParen) => true,
        (Token::RParen, Token::RParen) => true,
        (Token::LBrace, Token::LBrace) => true,
        (Token::RBrace, Token::RBrace) => true,
        (Token::LBracket, Token::LBracket) => true,
        (Token::RBracket, Token::RBracket) => true,
        (Token::Func, Token::Func) => true,
        _ => false,
    }
}

/// Whether `a` binds tighter than `b`.
pub fn binds_tighter(a: Precedence, b: Precedence) -> (tighter: bool)
    ensures
        tighter == (rank(a) > rank(b)),
{
    place(a) > place(b)
}

/// The place of a precedence in the order.
fn place(precedence: Precedence) -> (place: u8)
    ensures
        place == rank(precedence),
{
    match precedence {
        Precedence::Lowest => 0,
        Precedence::Equals => 1,
        Precedence::LessGreater => 2,
        Precedence::Sum => 3,
        Precedence::Product => 4,
        Precedence::Prefix => 5,
        Precedence::Call => 6,
        Precedence::Index => 7,
    }
}

/// The binary operator that a token spells, if it spells one.
fn infix_for(token: &Token) -> (op: Option<Infix>)
    ensures
        op == infix_of(token@),
{
    match token {
        Token::Plus => Some(Infix::Plus),
        Token::Minus => Some(Infix::Minus),
        Token::Slash => Some(Infix::Slash),
        Token::Asterisk => Some(Infix::Asterisk),
        Token::Eq => Some(Infix::Eq),
        Token::NotEq => Some(Infix::NotEq),
        Token::Lt => Some(Infix::Lt),
        Token::Gt => Some(Infix::Gt),
        _ => None,
    }
}

/// What a parsing method owes, given what the grammar says of the tokens
/// from `start` on.
///
/// Where the grammar has a tree, the method found that tree, the tree ends
/// after `start` and within the tokens, and the last token of the tree is
/// now the current one. Where the grammar has an error, the method failed
/// with that error.
pub open spec fn agrees<V>(
    expected: Parsed<V>,
    found: Result<V, ParseErrorView>,
    start: int,
    last: int,
    count: int,
) -> bool {
    match expected {
        Ok((tree, end)) => {
            &&& found == Ok::<V, ParseErrorView>(tree)
            &&& last == end - 1
            &&& start < end <= count
        },
        Err(error) => found == Err::<V, ParseErrorView>(error),
    }
}

/// The view of what the parsing of an expression gave.
pub open spec fn expression_found(result: Result<Box<Expression>, ParseError>) -> Result<
    ExpressionView,
    ParseErrorView,
> {
    match result {
        Ok(tree) => Ok(tree@),
        Err(error) => Err(error@),
    }
}

/// The view of what the parsing of a statement gave.
pub open spec fn statement_found(result: Result<Box<Statement>, ParseError>) -> Result<
    StatementView,
    ParseErrorView,
> {
    match result {
        Ok(tree) => Ok(tree@),
        Err(error) => Err(error@),
    }
}

/// The view of what the parsing of a block gave.
pub open spec fn block_found(result: Result<Box<BlockStatement>, ParseError>) -> Result<
    Seq<StatementView>,
    ParseErrorView,
> {
    match result {
        Ok(tree) => Ok(tree@),
        Err(error) => Err(error@),
    }
}

/// The view of what the parsing of a list of expressions gave.
pub open spec fn expressions_found(result: Result<Vec<Expression>, ParseError>) -> Result<
    Seq<ExpressionView>,
    ParseErrorView,
> {
    match result {
        Ok(trees) => Ok(expressions_view(trees)),
        Err(error) => Err(error@),
    }
}

/// The view of what the parsing of a list of names gave.
pub open spec fn names_found(result: Result<Vec<String>, ParseError>) -> Result<
    Seq<Seq<char>>,
    ParseErrorView,
> {
    match result {
        Ok(names) => Ok(names_view(names)),
        Err(error) => Err(error@),
    }
}

/// The view of what the parsing of a program gave.
pub open spec fn program_found(result: Result<Box<Program>, ParseError>) -> Result<
    Seq<StatementView>,
    ParseErrorView,
> {
    match result {
        Ok(tree) => Ok(tree@),
        Err(error) => Err(error@),
    }
}

/// A parser over the tokens of a lexer.
pub struct Parser {
    lexer: Box<Lexer>,
}

impl Parser {
    /// The tokens being parsed.
    pub closed spec fn tokens(&self) -> Seq<TokenView> {
        self.lexer.tokens()
    }

    /// The index of the current token; the number of tokens once the input
    /// is used up.
    pub closed spec fn position(&self) -> int {
        self.lexer.position()
    }

    /// The position lies within the tokens, or at their end.
    pub closed spec fn wf(&self) -> bool {
        self.lexer.wf()
    }

    /// The current token.
    pub open spec fn current(&self) -> TokenView {
        token_at(self.tokens(), self.position())
    }

    /// The token after the current one.
    pub open spec fn following(&self) -> TokenView {
        token_at(self.tokens(), self.position() + 1)
    }

    /// The position never passes the end of the tokens.
    pub proof fn lemma_position_in_range(&self)
        requires
            self.wf(),
        ensures
            0 <= self.position() <= self.tokens().len(),
    {
        self.lexer.lemma_position_in_range();
    }

    /// A parser whose current token is the next token of `lexer`.
    pub fn new(lexer: Box<Lexer>) -> (parser: Box<Parser>)
        requires
            lexer.wf(),
        ensures
            parser.wf(),
            parser.tokens() == lexer.tokens(),
            parser.position() == lexer.position(),
    {
        Box::new(Parser { lexer })
    }

    /// The current token.
    fn curr(&self) -> (token: &Token)
        requires
            self.wf(),
        ensures
            token@ == self.current(),
    {
        self.lexer.peek(0)
    }

    /// The token after the current one.
    fn ahead(&self) -> (token: &Token)
        requires
            self.wf(),
        ensures
            token@ == self.following(),
    {
        self.lexer.peek(1)
    }

    /// Makes the token after the current one the current token. At the end
    /// of the input nothing changes.
    fn advance(&mut self)
        requires
            old(self).wf(),
        ensures
            final(self).wf(),
            final(self).tokens() == old(self).tokens(),
            final(self).position() == if old(self).position() < old(self).tokens().len() {
                old(self).position() + 1
            } else {
                old(self).position()
            },
    {
        self.lexer.step();
    }

    /// The error that the current token fits no rule.
    fn unexpected_current(&self) -> (error: ParseError)
        requires
            self.wf(),
        ensures
            error@ == error_at(self.tokens(), self.position()),
    {
        proof {
            self.lemma_position_in_range();
        }
        ParseError { token: self.curr().clone(), position: self.lexer.offset() }
    }

    /// The error that the token after the current one fits no rule.
    fn unexpected_following(&self) -> (error: ParseError)
        requires
            self.wf(),
        ensures
            error@ == error_at(self.tokens(), self.position() + 1),
    {
        proof {
            self.lemma_position_in_range();
        }
        let position = if self.lexer.offset() < self.lexer.count() {
            self.lexer.offset() + 1
        } else {
            self.lexer.offset()
        };
        ParseError { token: self.ahead().clone(), position }
    }

    /// Makes the token after the current one the current token, and gives it.
    pub fn next(&mut self) -> (token: Token)
        requires
            old(self).wf(),
        ensures
            final(self).wf(),
            final(self).tokens() == old(self).tokens(),
            final(self).position() == if old(self).position() < old(self).tokens().len() {
                old(self).position() + 1
            } else {
                old(self).position()
            },
            token@ == final(self).current(),
    {
        self.advance();
        self.curr().clone()
    }

    /// The token after the current one.
    pub fn peek(&self) -> (token: Token)
        requires
            self.wf(),
        ensures
            token@ == self.following(),
    {
        self.ahead().clone()
    }

    /// The precedence with which a token continues an expression.
    pub fn precedence(&self, token: &Token) -> (precedence: Precedence)
        ensures
            precedence == precedence_of(token@),
    {
        match token {
            Token::Eq => Precedence::Equals,
            Token::NotEq => Precedence::Equals,
            Token::Lt => Precedence::LessGreater,
            Token::Gt => Precedence::LessGreater,
            Token::Plus => Precedence::Sum,
            Token::Minus => Precedence::Sum,
            Token::Asterisk => Precedence::Product,
            Token::Slash => Precedence::Product,
            Token::LParen => Precedence::Call,
            Token::LBracket => Precedence::Index,
            _ => Precedence::Lowest,
        }
    }

    /// The precedence of the token after the current one.
    pub fn peek_precedence(&self) -> (precedence: Precedence)
        requires
            self.wf(),
        ensures
            precedence == precedence_of(self.following()),
    {
        self.precedence(self.ahead())
    }

    /// Steps over the current token if it is `token`; fails with the current
    /// token, and stays where it is, if it is not.
    pub fn expect_current_token(&mut self, token: Token) -> (found: Result<(), ParseError>)
        requires
            old(self).wf(),
        ensures
            final(self).wf(),
            final(self).tokens() == old(self).tokens(),
            old(self).current() == token@ ==> found is Ok && final(self).position() == (if old(
                self,
            ).position() < old(self).tokens().len() {
                old(self).position() + 1
            } else {
                old(self).position()
            }),
            old(self).current() != token@ ==> (found matches Err(error) && error@ == error_at(
                old(self).tokens(),
                old(self).position(),
            )),
            found is Err ==> final(self).position() == old(self).position(),
    {
        if same_token(self.curr(), &token) {
            self.advance();
            Ok(())
        } else {
            Err(self.unexpected_current())
        }
    }

    /// Steps onto the token after the current one if it is `token`; fails
    /// with that token, and stays where it is, if it is not.
    pub fn expect_next_token(&mut self, token: Token) -> (found: Result<(), ParseError>)
        requires
            old(self).wf(),
        ensures
            final(self).wf(),
            final(self).tokens() == old(self).tokens(),
            old(self).following() == token@ ==> found is Ok && final(self).position() == (if old(
                self,
            ).position() < old(self).tokens().len() {
                old(self).position() + 1
            } else {
                old(self).position()
            }),
            old(self).following() != token@ ==> (found matches Err(error) && error@ == error_at(
                old(self).tokens(),
                old(self).position() + 1,
            )),
            found is Err ==> final(self).position() == old(self).position(),
    {
        if same_token(self.ahead(), &token) {
            self.advance();
            Ok(())
        } else {
            Err(self.unexpected_following())
        }
    }
}

impl Parser {
    /// The identifier that the current token is.
    fn parse_identifier(&self) -> (result: Result<Box<Expression>, ParseError>)
        requires
            self.wf(),
        ensures
            expression_found(result) == match self.current() {
                TokenView::Identifiere(name) => Ok::<ExpressionView, ParseErrorView>(
                    ExpressionView::Identifier(name),
                ),
                _ => Err::<ExpressionView, ParseErrorView>(
                    error_at(self.tokens(), self.position()),
                ),
            },
    {
        match self.curr() {
            Token::Identifiere(s) => Ok(Box::new(Expression::Identifier(s.clone()))),
            _ => Err(self.unexpected_current()),
        }
    }

    /// The string literal that the current token is.
    fn parse_string(&self) -> (result: Result<Box<Expression>, ParseError>)
        requires
            self.wf(),
        ensures
            expression_found(result) == match self.current() {
                TokenView::String(s) => Ok::<ExpressionView, ParseErrorView>(
                    ExpressionView::String(s),
                ),
                _ => Err::<ExpressionView, ParseErrorView>(
                    error_at(self.tokens(), self.position()),
                ),
            },
    {
        match self.curr() {
            Token::String(s) => Ok(Box::new(Expression::String(s.clone()))),
            _ => Err(self.unexpected_current()),
        }
    }

    /// The integer literal that the current token is.
    fn parse_integer(&self) -> (result: Result<Box<Expression>, ParseError>)
        requires
            self.wf(),
        ensures
            expression_found(result) == match self.current() {
                TokenView::Integer(i) => Ok::<ExpressionView, ParseErrorView>(
                    ExpressionView::IntegerLiteral(i),
                ),
                _ => Err::<ExpressionView, ParseErrorView>(
                    error_at(self.tokens(), self.position()),
                ),
            },
    {
        match self.curr() {
            Token::Integer(i) => Ok(Box::new(Expression::IntegerLiteral(*i))),
            _ => Err(self.unexpected_current()),
        }
    }

    /// The boolean literal that the current token is.
    fn parse_boolean(&self) -> (result: Result<Box<Expression>, ParseError>)
        requires
            self.wf(),
        ensures
            expression_found(result) == match self.current() {
                TokenView::True => Ok::<ExpressionView, ParseErrorView>(
                    ExpressionView::Bool(true),
                ),
                TokenView::False => Ok::<ExpressionView, ParseErrorView>(
                    ExpressionView::Bool(false),
                ),
                _ => Err::<ExpressionView, ParseErrorView>(
                    error_at(self.tokens(), self.position()),
                ),
            },
    {
        match self.curr() {
            Token::True => Ok(Box::new(Expression::Bool(true))),
            Token::False => Ok(Box::new(Expression::Bool(false))),
            _ => Err(self.unexpected_current()),
        }
    }

    /// Parses a prefix operator, which is the current token, and its
    /// operand.
    fn parse_prefix_expression(&mut self) -> (result: Result<Box<Expression>, ParseError>)
        requires
            old(self).wf(),
        ensures
            final(self).wf(),
            final(self).tokens() == old(self).tokens(),
            agrees(
                prefix_at(old(self).tokens(), old(self).position()),
                expression_found(result),
                old(self).position(),
                final(self).position(),
                old(self).tokens().len() as int,
            ),
        decreases old(self).tokens().len() - old(self).position(), 0nat,
    {
        proof {
            self.lemma_position_in_range();
        }
        let prefix = match self.curr() {
            Token::Bang => Prefix::Bang,
            Token::Minus => Prefix::Minus,
            _ => {
                return Err(self.unexpected_current());
            },
        };
        self.advance();
        let operand = match self.parse_expression(Precedence::Prefix) {
            Ok(operand) => operand,
            Err(error) => {
                return Err(error);
            },
        };
        Ok(Box::new(Expression::Prefix(prefix, operand)))
    }

    /// Parses an expression in parentheses, with the opening parenthesis
    /// as the current token.
    fn parse_group_expression(&mut self) -> (result: Result<Box<Expression>, ParseError>)
        requires
            old(self).wf(),
        ensures
            final(self).wf(),
            final(self).tokens() == old(self).tokens(),
            agrees(
                group_at(old(self).tokens(), old(self).position()),
                expression_found(result),
                old(self).position(),
                final(self).position(),
                old(self).tokens().len() as int,
            ),
        decreases old(self).tokens().len() - old(self).position(), 0nat,
    {
        proof {
            self.lemma_position_in_range();
        }
        match self.expect_current_token(Token::LParen) {
            Ok(_) => {},
            Err(error) => {
                return Err(error);
            },
        }
        let expr = match self.parse_expression(Precedence::Lowest) {
            Ok(expr) => expr,
            Err(error) => {
                return Err(error);
            },
        };
        match self.expect_next_token(Token::RParen) {
            Ok(_) => {},
            Err(error) => {
                return Err(error);
            },
        }
        Ok(expr)
    }

    /// Parses a conditional, with `if` as the current token.
    fn parse_if_expression(&mut self) -> (result: Result<Box<Expression>, ParseError>)
        requires
            old(self).wf(),
        ensures
            final(self).wf(),
            final(self).tokens() == old(self).tokens(),
            agrees(
                conditional_at(old(self).tokens(), old(self).position()),
                expression_found(result),
                old(self).position(),
                final(self).position(),
                old(self).tokens().len() as int,
            ),
        decreases old(self).tokens().len() - old(self).position(), 0nat,
    {
        proof {
            self.lemma_position_in_range();
        }
        match self.expect_current_token(Token::If) {
            Ok(_) => {},
            Err(error) => {
                return Err(error);
            },
        }
        let condition = match self.parse_group_expression() {
            Ok(condition) => condition,
            Err(error) => {
                return Err(error);
            },
        };
        let true_block = match self.parse_block_statement() {
            Ok(block) => block,
            Err(error) => {
                return Err(error);
            },
        };
        let mut false_block: Option<Box<BlockStatement>> = None;
        if matches!(*self.ahead(), Token::Else) {
            self.advance();
            match self.parse_block_statement() {
                Ok(block) => {
                    false_block = Some(block);
                },
                Err(error) => {
                    return Err(error);
                },
            }
        }
        Ok(Box::new(Expression::If(condition, true_block, false_block)))
    }

    /// Parses a block, with the token before the opening brace as the
    /// current token. The block must be closed before the input ends.
    fn parse_block_statement(&mut self) -> (result: Result<Box<BlockStatement>, ParseError>)
        requires
            old(self).wf(),
        ensures
            final(self).wf(),
            final(self).tokens() == old(self).tokens(),
            agrees(
                block_at(old(self).tokens(), old(self).position() + 1),
                block_found(result),
                old(self).position() + 1,
                final(self).position(),
                old(self).tokens().len() as int,
            ),
        decreases old(self).tokens().len() - old(self).position() - 1, 6nat,
    {
        proof {
            self.lemma_position_in_range();
        }
        let ghost ts = self.tokens();
        let ghost open = self.position() + 1;
        let mut statements: Vec<Statement> = Vec::new();
        match self.expect_next_token(Token::LBrace) {
            Ok(_) => {},
            Err(error) => {
                return Err(error);
            },
        }
        self.advance();
        proof {
            assert(statements_view(statements) =~= Seq::<StatementView>::empty());
            match statements_until_brace(ts, open + 1) {
                Ok((rest, end)) => {
                    assert(statements_view(statements) + rest =~= rest);
                },
                Err(_) => {},
            }
        }
        while !matches!(*self.curr(), Token::Eof) && !matches!(*self.curr(), Token::RBrace)
            invariant
                self.wf(),
                self.tokens() == ts,
                ts == old(self).tokens(),
                open == old(self).position() + 1,
                open < self.position() <= ts.len(),
                token_at(ts, open) == TokenView::LBrace,
                match statements_until_brace(ts, self.position()) {
                    Ok((rest, end)) => statements_until_brace(ts, open + 1) == Ok::<
                        (Seq<StatementView>, int),
                        ParseErrorView,
                    >((statements_view(statements) + rest, end)),
                    Err(error) => statements_until_brace(ts, open + 1) == Err::<
                        (Seq<StatementView>, int),
                        ParseErrorView,
                    >(error),
                },
            decreases ts.len() - self.position(),
        {
            let ghost at = self.position();
            let ghost before = statements_view(statements);
            let statement = match self.parse_statement() {
                Ok(statement) => statement,
                Err(error) => {
                    return Err(error);
                },
            };
            let ghost first = statement@;
            statements.push(*statement);
            self.advance();
            proof {
                assert(statements_view(statements) =~= before.push(first));
                match statements_until_brace(ts, self.position()) {
                    Ok((rest, end)) => {
                        assert(before + (seq![first] + rest) =~= statements_view(statements)
                            + rest);
                    },
                    Err(_) => {},
                }
            }
        }
        if matches!(*self.curr(), Token::Eof) {
            return Err(self.unexpected_current());
        }
        proof {
            assert(statements_view(statements) + Seq::<StatementView>::empty()
                =~= statements_view(statements));
        }
        Ok(Box::new(BlockStatement { stmts: statements }))
    }

    /// Parses an expression as a statement, with the semicolon after it if
    /// there is one.
    pub fn parse_expression_statement(&mut self) -> (result: Result<Box<Statement>, ParseError>)
        requires
            old(self).wf(),
        ensures
            final(self).wf(),
            final(self).tokens() == old(self).tokens(),
            agrees(
                expression_statement_at(old(self).tokens(), old(self).position()),
                statement_found(result),
                old(self).position(),
                final(self).position(),
                old(self).tokens().len() as int,
            ),
        decreases old(self).tokens().len() - old(self).position(), 3nat,
    {
        proof {
            self.lemma_position_in_range();
        }
        let expr = match self.parse_expression(Precedence::Lowest) {
            Ok(expr) => expr,
            Err(error) => {
                return Err(error);
            },
        };
        if matches!(*self.ahead(), Token::Semicolon) {
            self.advance();
        }
        Ok(Box::new(Statement::Expression(expr)))
    }

    /// Parses a `let` statement, with `let` as the current token.
    fn parse_let_statement(&mut self) -> (result: Result<Box<Statement>, ParseError>)
        requires
            old(self).wf(),
        ensures
            final(self).wf(),
            final(self).tokens() == old(self).tokens(),
            agrees(
                let_at(old(self).tokens(), old(self).position()),
                statement_found(result),
                old(self).position(),
                final(self).position(),
                old(self).tokens().len() as int,
            ),
        decreases old(self).tokens().len() - old(self).position(), 3nat,
    {
        proof {
            self.lemma_position_in_range();
        }
        match self.expect_current_token(Token::Let) {
            Ok(_) => {},
            Err(error) => {
                return Err(error);
            },
        }
        let identifier = match self.curr() {
            Token::Identifiere(s) => s.clone(),
            _ => {
                return Err(self.unexpected_current());
            },
        };
        match self.expect_next_token(Token::Assign) {
            Ok(_) => {},
            Err(error) => {
                return Err(error);
            },
        }
        self.advance();
        let expr = match self.parse_expression(Precedence::Lowest) {
            Ok(expr) => expr,
            Err(error) => {
                return Err(error);
            },
        };
        if matches!(*self.ahead(), Token::Semicolon) {
            self.advance();
        }
        Ok(Box::new(Statement::Let(identifier, expr)))
    }

    /// Parses a `return` statement, with `return` as the current token.
    fn parse_return_statement(&mut self) -> (result: Result<Box<Statement>, ParseError>)
        requires
            old(self).wf(),
        ensures
            final(self).wf(),
            final(self).tokens() == old(self).tokens(),
            agrees(
                return_at(old(self).tokens(), old(self).position()),
                statement_found(result),
                old(self).position(),
                final(self).position(),
                old(self).tokens().len() as int,
            ),
        decreases old(self).tokens().len() - old(self).position(), 3nat,
    {
        proof {
            self.lemma_position_in_range();
        }
        if !matches!(*self.curr(), Token::Ret) {
            return Err(self.unexpected_current());
        }
        if matches!(*self.ahead(), Token::Semicolon) {
            self.advance();
            return Ok(Box::new(Statement::Return(None)));
        }
        self.advance();
        let expr = match self.parse_expression(Precedence::Lowest) {
            Ok(expr) => expr,
            Err(error) => {
                return Err(error);
            },
        };
        if matches!(*self.ahead(), Token::Semicolon) {
            self.advance();
        }
        Ok(Box::new(Statement::Return(Some(expr))))
    }

    /// Parses the expression that starts at the current token and whose
    /// operators all bind tighter than `precedence`.
    fn parse_expression(&mut self, precedence: Precedence) -> (result: Result<
        Box<Expression>,
        ParseError,
    >)
        requires
            old(self).wf(),
        ensures
            final(self).wf(),
            final(self).tokens() == old(self).tokens(),
            agrees(
                expression_at(old(self).tokens(), old(self).position(), precedence),
                expression_found(result),
                old(self).position(),
                final(self).position(),
                old(self).tokens().len() as int,
            ),
        decreases old(self).tokens().len() - old(self).position(), 2nat,
    {
        proof {
            self.lemma_position_in_range();
        }
        let ghost ts = self.tokens();
        let ghost start = self.position();
        let primary = match self.curr() {
            Token::Identifiere(_) => self.parse_identifier(),
            Token::Integer(_) => self.parse_integer(),
            Token::String(_) => self.parse_string(),
            Token::True | Token::False => self.parse_boolean(),
            Token::Bang | Token::Minus => self.parse_prefix_expression(),
            Token::LParen => self.parse_group_expression(),
            Token::If => self.parse_if_expression(),
            Token::Func => self.parse_function(),
            Token::LBracket => self.parse_array_literal(),
            Token::LBrace => self.parse_hash_literal(),
            _ => Err(self.unexpected_current()),
        };
        let mut expr = match primary {
            Ok(expr) => expr,
            Err(error) => {
                return Err(error);
            },
        };
        while binds_tighter(self.peek_precedence(), precedence)
            invariant
                self.wf(),
                self.tokens() == ts,
                ts == old(self).tokens(),
                start == old(self).position(),
                start <= self.position() < ts.len(),
                expression_at(ts, start, precedence) == operators_from(
                    ts,
                    self.position() + 1,
                    precedence,
                    expr@,
                ),
            decreases ts.len() - self.position(),
        {
            let ghost left = expr@;
            let token = self.next();
            let ghost step = operator_at(ts, self.position(), left);
            match infix_for(&token) {
                Some(infix) => {
                    self.advance();
                    let right = match self.parse_expression(self.precedence(&token)) {
                        Ok(right) => right,
                        Err(error) => {
                            return Err(error);
                        },
                    };
                    expr = Box::new(Expression::Infix(infix, expr, right));
                },
                None => {
                    if matches!(token, Token::LParen) {
                        expr = match self.parse_function_call(expr) {
                            Ok(call) => call,
                            Err(error) => {
                                return Err(error);
                            },
                        };
                    } else if matches!(token, Token::LBracket) {
                        expr = match self.parse_array_index(expr) {
                            Ok(subscript) => subscript,
                            Err(error) => {
                                return Err(error);
                            },
                        };
                    }
                },
            }
        }
        Ok(expr)
    }

    /// The expressions of a list up to the token `close`, with the first of
    /// them, or `close`, as the current token.
    fn parse_expression_list(&mut self, close: Token) -> (result: Result<
        Vec<Expression>,
        ParseError,
    >)
        requires
            old(self).wf(),
            close@ != TokenView::Eof,
        ensures
            final(self).wf(),
            final(self).tokens() == old(self).tokens(),
            agrees(
                expressions_until(old(self).tokens(), old(self).position(), close@),
                expressions_found(result),
                old(self).position(),
                final(self).position(),
                old(self).tokens().len() as int,
            ),
        decreases old(self).tokens().len() - old(self).position(), 3nat,
    {
        proof {
            self.lemma_position_in_range();
        }
        let ghost ts = self.tokens();
        let ghost start = self.position();
        let mut items: Vec<Expression> = Vec::new();
        proof {
            match expressions_until(ts, start, close@) {
                Ok((rest, end)) => {
                    assert(expressions_view(items) + rest =~= rest);
                },
                Err(_) => {},
            }
        }
        while !same_token(self.curr(), &close)
            invariant
                self.wf(),
                self.tokens() == ts,
                ts == old(self).tokens(),
                start == old(self).position(),
                close@ != TokenView::Eof,
                start <= self.position() <= ts.len(),
                match expressions_until(ts, self.position(), close@) {
                    Ok((rest, end)) => expressions_until(ts, start, close@) == Ok::<
                        (Seq<ExpressionView>, int),
                        ParseErrorView,
                    >((expressions_view(items) + rest, end)),
                    Err(error) => expressions_until(ts, start, close@) == Err::<
                        (Seq<ExpressionView>, int),
                        ParseErrorView,
                    >(error),
                },
            decreases ts.len() - self.position(),
        {
            let ghost before = expressions_view(items);
            let expr = match self.parse_expression(Precedence::Lowest) {
                Ok(expr) => expr,
                Err(error) => {
                    return Err(error);
                },
            };
            let ghost first = expr@;
            items.push(*expr);
            if matches!(*self.ahead(), Token::Comma) {
                self.advance();
            }
            self.advance();
            proof {
                assert(expressions_view(items) =~= before.push(first));
                match expressions_until(ts, self.position(), close@) {
                    Ok((rest, end)) => {
                        assert(before + (seq![first] + rest) =~= expressions_view(items) + rest);
                    },
                    Err(_) => {},
                }
            }
        }
        proof {
            assert(expressions_view(items) + Seq::<ExpressionView>::empty() =~= expressions_view(
                items,
            ));
        }
        Ok(items)
    }

    /// Parses the arguments of a call, with the opening parenthesis as the
    /// current token.
    pub fn parse_call_params(&mut self) -> (result: Result<Vec<Expression>, ParseError>)
        requires
            old(self).wf(),
        ensures
            final(self).wf(),
            final(self).tokens() == old(self).tokens(),
            agrees(
                arguments_at(old(self).tokens(), old(self).position()),
                expressions_found(result),
                old(self).position(),
                final(self).position(),
                old(self).tokens().len() as int,
            ),
        decreases old(self).tokens().len() - old(self).position(), 0nat,
    {
        proof {
            self.lemma_position_in_range();
        }
        match self.expect_current_token(Token::LParen) {
            Ok(_) => {},
            Err(error) => {
                return Err(error);
            },
        }
        self.parse_expression_list(Token::RParen)
    }

    /// Parses the call of `left`, with the opening parenthesis of the
    /// arguments as the current token.
    pub fn parse_function_call(&mut self, left: Box<Expression>) -> (result: Result<
        Box<Expression>,
        ParseError,
    >)
        requires
            old(self).wf(),
        ensures
            final(self).wf(),
            final(self).tokens() == old(self).tokens(),
            agrees(
                call_at(old(self).tokens(), old(self).position(), left@),
                expression_found(result),
                old(self).position(),
                final(self).position(),
                old(self).tokens().len() as int,
            ),
        decreases old(self).tokens().len() - old(self).position(), 1nat,
    {
        let parameters = match self.parse_call_params() {
            Ok(parameters) => parameters,
            Err(error) => {
                return Err(error);
            },
        };
        Ok(Box::new(Expression::Call(left, parameters)))
    }

    /// Parses the subscript of `left`, with the opening bracket as the
    /// current token.
    pub fn parse_array_index(&mut self, left: Box<Expression>) -> (result: Result<
        Box<Expression>,
        ParseError,
    >)
        requires
            old(self).wf(),
        ensures
            final(self).wf(),
            final(self).tokens() == old(self).tokens(),
            agrees(
                subscript_at(old(self).tokens(), old(self).position(), left@),
                expression_found(result),
                old(self).position(),
                final(self).position(),
                old(self).tokens().len() as int,
            ),
        decreases old(self).tokens().len() - old(self).position(), 0nat,
    {
        proof {
            self.lemma_position_in_range();
        }
        match self.expect_current_token(Token::LBracket) {
            Ok(_) => {},
            Err(error) => {
                return Err(error);
            },
        }
        let index_expr = match self.parse_expression(Precedence::Lowest) {
            Ok(expr) => expr,
            Err(error) => {
                return Err(error);
            },
        };
        match self.expect_next_token(Token::RBracket) {
            Ok(_) => {},
            Err(error) => {
                return Err(error);
            },
        }
        Ok(Box::new(Expression::Index(left, index_expr)))
    }

    /// Parses an array literal, with the opening bracket as the current
    /// token.
    pub fn parse_array_literal(&mut self) -> (result: Result<Box<Expression>, ParseError>)
        requires
            old(self).wf(),
        ensures
            final(self).wf(),
            final(self).tokens() == old(self).tokens(),
            agrees(
                array_at(old(self).tokens(), old(self).position()),
                expression_found(result),
                old(self).position(),
                final(self).position(),
                old(self).tokens().len() as int,
            ),
        decreases old(self).tokens().len() - old(self).position(), 0nat,
    {
        proof {
            self.lemma_position_in_range();
        }
        match self.expect_current_token(Token::LBracket) {
            Ok(_) => {},
            Err(error) => {
                return Err(error);
            },
        }
        let members = match self.parse_expression_list(Token::RBracket) {
            Ok(members) => members,
            Err(error) => {
                return Err(error);
            },
        };
        Ok(Box::new(Expression::ArrayLiteral(members)))
    }

    /// Parses one pair of a hash literal, with the first token of the key as
    /// the current token.
    fn parse_pair(&mut self) -> (result: Result<(Expression, Expression), ParseError>)
        requires
            old(self).wf(),
        ensures
            final(self).wf(),
            final(self).tokens() == old(self).tokens(),
            agrees(
                pair_at(old(self).tokens(), old(self).position()),
                match result {
                    Ok(pair) => Ok::<(ExpressionView, ExpressionView), ParseErrorView>(
                        (pair.0@, pair.1@),
                    ),
                    Err(error) => Err::<(ExpressionView, ExpressionView), ParseErrorView>(error@),
                },
                old(self).position(),
                final(self).position(),
                old(self).tokens().len() as int,
            ),
        decreases old(self).tokens().len() - old(self).position(), 3nat,
    {
        proof {
            self.lemma_position_in_range();
        }
        let key = match self.parse_expression(Precedence::Lowest) {
            Ok(key) => key,
            Err(error) => {
                return Err(error);
            },
        };
        match self.expect_next_token(Token::Colon) {
            Ok(_) => {},
            Err(error) => {
                return Err(error);
            },
        }
        self.advance();
        let val = match self.parse_expression(Precedence::Lowest) {
            Ok(val) => val,
            Err(error) => {
                return Err(error);
            },
        };
        Ok((*key, *val))
    }

    /// Parses a hash literal, with the opening brace as the current token.
    pub fn parse_hash_literal(&mut self) -> (result: Result<Box<Expression>, ParseError>)
        requires
            old(self).wf(),
        ensures
            final(self).wf(),
            final(self).tokens() == old(self).tokens(),
            agrees(
                hash_at(old(self).tokens(), old(self).position()),
                expression_found(result),
                old(self).position(),
                final(self).position(),
                old(self).tokens().len() as int,
            ),
        decreases old(self).tokens().len() - old(self).position(), 0nat,
    {
        proof {
            self.lemma_position_in_range();
        }
        let ghost ts = self.tokens();
        let ghost open = self.position();
        let mut key_values: Vec<(Expression, Expression)> = Vec::new();
        match self.expect_current_token(Token::LBrace) {
            Ok(_) => {},
            Err(error) => {
                return Err(error);
            },
        }
        proof {
            match pairs_until(ts, open + 1) {
                Ok((rest, end)) => {
                    assert(pairs_view(key_values) + rest =~= rest);
                },
                Err(_) => {},
            }
        }
        while !matches!(*self.curr(), Token::RBrace)
            invariant
                self.wf(),
                self.tokens() == ts,
                ts == old(self).tokens(),
                open == old(self).position(),
                open < self.position() <= ts.len(),
                token_at(ts, open) == TokenView::LBrace,
                match pairs_until(ts, self.position()) {
                    Ok((rest, end)) => pairs_until(ts, open + 1) == Ok::<
                        (Seq<(ExpressionView, ExpressionView)>, int),
                        ParseErrorView,
                    >((pairs_view(key_values) + rest, end)),
                    Err(error) => pairs_until(ts, open + 1) == Err::<
                        (Seq<(ExpressionView, ExpressionView)>, int),
                        ParseErrorView,
                    >(error),
                },
            decreases ts.len() - self.position(),
        {
            let ghost before = pairs_view(key_values);
            let pair = match self.parse_pair() {
                Ok(pair) => pair,
                Err(error) => {
                    return Err(error);
                },
            };
            let ghost first = (pair.0@, pair.1@);
            key_values.push(pair);
            if matches!(*self.ahead(), Token::Comma) {
                self.advance();
            }
            self.advance();
            proof {
                assert(pairs_view(key_values) =~= before.push(first));
                match pairs_until(ts, self.position()) {
                    Ok((rest, end)) => {
                        assert(before + (seq![first] + rest) =~= pairs_view(key_values) + rest);
                    },
                    Err(_) => {},
                }
            }
        }
        proof {
            assert(pairs_view(key_values) + Seq::<(ExpressionView, ExpressionView)>::empty()
                =~= pairs_view(key_values));
        }
        Ok(Box::new(Expression::HashMapLiteral(key_values)))
    }

    /// Parses a parameter list, with the opening parenthesis as the current
    /// token.
    pub fn parse_function_params(&mut self) -> (result: Result<Vec<String>, ParseError>)
        requires
            old(self).wf(),
        ensures
            final(self).wf(),
            final(self).tokens() == old(self).tokens(),
            agrees(
                parameters_at(old(self).tokens(), old(self).position()),
                names_found(result),
                old(self).position(),
                final(self).position(),
                old(self).tokens().len() as int,
            ),
    {
        proof {
            self.lemma_position_in_range();
        }
        let ghost ts = self.tokens();
        let ghost open = self.position();
        let mut parameters: Vec<String> = Vec::new();
        match self.expect_current_token(Token::LParen) {
            Ok(_) => {},
            Err(error) => {
                return Err(error);
            },
        }
        proof {
            match names_until(ts, open + 1) {
                Ok((rest, end)) => {
                    assert(names_view(parameters) + rest =~= rest);
                },
                Err(_) => {},
            }
        }
        while !matches!(*self.curr(), Token::RParen)
            invariant
                self.wf(),
                self.tokens() == ts,
                ts == old(self).tokens(),
                open == old(self).position(),
                open < self.position() <= ts.len(),
                token_at(ts, open) == TokenView::LParen,
                match names_until(ts, self.position()) {
                    Ok((rest, end)) => names_until(ts, open + 1) == Ok::<
                        (Seq<Seq<char>>, int),
                        ParseErrorView,
                    >((names_view(parameters) + rest, end)),
                    Err(error) => names_until(ts, open + 1) == Err::<
                        (Seq<Seq<char>>, int),
                        ParseErrorView,
                    >(error),
                },
            decreases ts.len() - self.position(),
        {
            let ghost before = names_view(parameters);
            let identifier = match self.curr() {
                Token::Identifiere(i) => i.clone(),
                _ => {
                    return Err(self.unexpected_current());
                },
            };
            let ghost first = identifier@;
            parameters.push(identifier);
            if matches!(*self.ahead(), Token::Comma) {
                self.advance();
            }
            self.advance();
            proof {
                assert(names_view(parameters) =~= before.push(first));
                match names_until(ts, self.position()) {
                    Ok((rest, end)) => {
                        assert(before + (seq![first] + rest) =~= names_view(parameters) + rest);
                    },
                    Err(_) => {},
                }
            }
        }
        proof {
            assert(names_view(parameters) + Seq::<Seq<char>>::empty() =~= names_view(parameters));
        }
        Ok(parameters)
    }

    /// Parses a function literal, with `fn` as the current token.
    pub fn parse_function(&mut self) -> (result: Result<Box<Expression>, ParseError>)
        requires
            old(self).wf(),
        ensures
            final(self).wf(),
            final(self).tokens() == old(self).tokens(),
            agrees(
                function_at(old(self).tokens(), old(self).position()),
                expression_found(result),
                old(self).position(),
                final(self).position(),
                old(self).tokens().len() as int,
            ),
        decreases old(self).tokens().len() - old(self).position(), 0nat,
    {
        proof {
            self.lemma_position_in_range();
        }
        match self.expect_current_token(Token::Func) {
            Ok(_) => {},
            Err(error) => {
                return Err(error);
            },
        }
        let parameters = match self.parse_function_params() {
            Ok(parameters) => parameters,
            Err(error) => {
                return Err(error);
            },
        };
        let body = match self.parse_block_statement() {
            Ok(body) => body,
            Err(error) => {
                return Err(error);
            },
        };
        Ok(Box::new(Expression::FunctionLiteral(parameters, body)))
    }

    /// Parses the statement that starts at the current token.
    pub fn parse_statement(&mut self) -> (result: Result<Box<Statement>, ParseError>)
        requires
            old(self).wf(),
        ensures
            final(self).wf(),
            final(self).tokens() == old(self).tokens(),
            agrees(
                statement_at(old(self).tokens(), old(self).position()),
                statement_found(result),
                old(self).position(),
                final(self).position(),
                old(self).tokens().len() as int,
            ),
        decreases old(self).tokens().len() - old(self).position(), 4nat,
    {
        match self.curr() {
            Token::Let => self.parse_let_statement(),
            Token::Ret => self.parse_return_statement(),
            _ => self.parse_expression_statement(),
        }
    }

    /// Parses the statements from the current token to the end of the
    /// input.
    ///
    /// Succeeds exactly when the grammar has a program for these tokens, and
    /// gives that program; fails with the grammar's error otherwise.
    pub fn parse_program(&mut self) -> (result: Result<Box<Program>, ParseError>)
        requires
            old(self).wf(),
        ensures
            final(self).wf(),
            final(self).tokens() == old(self).tokens(),
            program_found(result) == program_from(old(self).tokens(), old(self).position()),
    {
        proof {
            self.lemma_position_in_range();
        }
        let ghost ts = self.tokens();
        let ghost start = self.position();
        let mut stmts: Vec<Statement> = Vec::new();
        proof {
            match statements_to_end(ts, start) {
                Ok((rest, end)) => {
                    assert(statements_view(stmts) + rest =~= rest);
                },
                Err(_) => {},
            }
        }
        while !matches!(*self.curr(), Token::Eof)
            invariant
                self.wf(),
                self.tokens() == ts,
                ts == old(self).tokens(),
                start == old(self).position(),
                start <= self.position() <= ts.len(),
                match statements_to_end(ts, self.position()) {
                    Ok((rest, end)) => statements_to_end(ts, start) == Ok::<
                        (Seq<StatementView>, int),
                        ParseErrorView,
                    >((statements_view(stmts) + rest, end)),
                    Err(error) => statements_to_end(ts, start) == Err::<
                        (Seq<StatementView>, int),
                        ParseErrorView,
                    >(error),
                },
            decreases ts.len() - self.position(),
        {
            let ghost before = statements_view(stmts);
            let statement = match self.parse_statement() {
                Ok(statement) => statement,
                Err(error) => {
                    return Err(error);
                },
            };
            let ghost first = statement@;
            stmts.push(*statement);
            self.advance();
            proof {
                assert(statements_view(stmts) =~= before.push(first));
                match statements_to_end(ts, self.position()) {
                    Ok((rest, end)) => {
                        assert(before + (seq![first] + rest) =~= statements_view(stmts) + rest);
                    },
                    Err(_) => {},
                }
            }
        }
        proof {
            assert(statements_view(stmts) + Seq::<StatementView>::empty() =~= statements_view(
                stmts,
            ));
        }
        Ok(Box::new(Program { stmts }))
    }
}

} // verus!
