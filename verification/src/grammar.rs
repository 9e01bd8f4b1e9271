//! The grammar: which syntax tree a sequence of tokens has, if it has one.
//!
//! Every function here reads the tokens from a position on and gives the
//! tree it found together with the position after it, or the token that
//! fits no rule together with its position.

use crate::ast::{ExpressionView, Infix, Prefix, StatementView};
use crate::lexer::{token_at, TokenView};
use vstd::prelude::*;

verus! {

/// How tightly an operator binds, from loosest to tightest.
#[derive(Debug, Clone, Copy, PartialEq, Eq, PartialOrd, Structural)]
pub enum Precedence {
    Lowest,
    Equals,
    LessGreater,
    Sum,
    Product,
    Prefix,
    Call,
    Index,
}

/// The place of a precedence in the order.
pub open spec fn rank(precedence: Precedence) -> int {
    match precedence {
        Precedence::Lowest => 0,
        Precedence::Equals => 1,
        Precedence::LessGreater => 2,
        Precedence::Sum => 3,
        Precedence::Product => 4,
        Precedence::Prefix => 5,
        Precedence::Call => 6,
        Precedence::Index => 7,
    }
}

/// The precedence with which a token continues an expression; `Lowest` for a
/// token that continues none.
pub open spec fn precedence_of(token: TokenView) -> Precedence {
    match token {
        TokenView::Eq => Precedence::Equals,
        TokenView::NotEq => Precedence::Equals,
        TokenView::Lt => Precedence::LessGreater,
        TokenView::Gt => Precedence::LessGreater,
        TokenView::Plus => Precedence::Sum,
        TokenView::Minus => Precedence::Sum,
        TokenView::Asterisk => Precedence::Product,
        TokenView::Slash => Precedence::Product,
        TokenView::LParen => Precedence::Call,
        TokenView::LBracket => Precedence::Index,
        _ => Precedence::Lowest,
    }
}

/// The binary operator that a token spells, if it spells one.
pub open spec fn infix_of(token: TokenView) -> Option<Infix> {
    match token {
        TokenView::Plus => Some(Infix::Plus),
        TokenView::Minus => Some(Infix::Minus),
        TokenView::Slash => Some(Infix::Slash),
        TokenView::Asterisk => Some(Infix::Asterisk),
        TokenView::Eq => Some(Infix::Eq),
        TokenView::NotEq => Some(Infix::NotEq),
        TokenView::Lt => Some(Infix::Lt),
        TokenView::Gt => Some(Infix::Gt),
        _ => None,
    }
}

/// The token that fits no rule, and its index in the token sequence.
pub struct ParseErrorView {
    pub token: TokenView,
    pub position: int,
}

/// A tree and the position after it, or the error.
pub type Parsed<T> = Result<(T, int), ParseErrorView>;

/// The error that the token at `pos` fits no rule. Beyond the last token the
/// end of the input is what does not fit, and its position is the number of
/// tokens.
pub open spec fn error_at(ts: Seq<TokenView>, pos: int) -> ParseErrorView {
    ParseErrorView {
        token: token_at(ts, pos),
        position: if pos <= ts.len() {
            pos
        } else {
            ts.len() as int
        },
    }
}

/// The failure that the token at `pos` fits no rule.
pub open spec fn unexpected<T>(ts: Seq<TokenView>, pos: int) -> Parsed<T> {
    Err(error_at(ts, pos))
}

/// Whether a result, if it is a tree, ends after `pos` and within the
/// tokens. Every result of this grammar does (the lemmas at the end of this
/// file, gathered in `laws::lemma_parse_advances`), so the arms below that
/// are taken when one does not are never reached.
pub open spec fn advances<T>(result: Parsed<T>, ts: Seq<TokenView>, pos: int) -> bool {
    result matches Ok((_, next)) ==> pos < next <= ts.len()
}

/// The position after an optional token `skipped` at `pos`.
pub open spec fn skip(ts: Seq<TokenView>, pos: int, skipped: TokenView) -> int {
    if token_at(ts, pos) == skipped {
        pos + 1
    } else {
        pos
    }
}

/// The names of a parameter list from `pos` on, up to and including the
/// closing parenthesis; a comma after a name is optional.
pub open spec fn names_until(ts: Seq<TokenView>, pos: int) -> Parsed<Seq<Seq<char>>>
    decreases ts.len() - pos,
{
    match token_at(ts, pos) {
        TokenView::RParen => Ok((Seq::empty(), pos + 1)),
        TokenView::Identifiere(name) => match names_until(
            ts,
            skip(ts, pos + 1, TokenView::Comma),
        ) {
            Ok((rest, end)) => Ok((seq![name] + rest, end)),
            Err(error) => Err(error),
        },
        _ => unexpected(ts, pos),
    }
}

/// A parameter list: an opening parenthesis, then names up to the closing
/// one.
pub open spec fn parameters_at(ts: Seq<TokenView>, pos: int) -> Parsed<Seq<Seq<char>>> {
    if token_at(ts, pos) == TokenView::LParen {
        names_until(ts, pos + 1)
    } else {
        unexpected(ts, pos)
    }
}

/// The expression that starts at `pos` and whose operators all bind tighter
/// than `bound`: a primary expression, continued by the operators, calls and
/// subscripts that follow it.
pub open spec fn expression_at(ts: Seq<TokenView>, pos: int, bound: Precedence) -> Parsed<
    ExpressionView,
>
    decreases ts.len() - pos, 2nat,
{
    match primary_at(ts, pos) {
        Ok((left, next)) => if pos < next <= ts.len() {
            operators_from(ts, next, bound, left)
        } else {
            unexpected(ts, pos)
        },
        Err(error) => Err(error),
    }
}

/// The primary expression that starts at `pos`: an identifier, a literal, a
/// prefix operator with its operand, an expression in parentheses, a
/// conditional, a function literal, an array literal or a hash literal.
pub open spec fn primary_at(ts: Seq<TokenView>, pos: int) -> Parsed<ExpressionView>
    decreases ts.len() - pos, 1nat,
{
    match token_at(ts, pos) {
        TokenView::Identifiere(name) => Ok((ExpressionView::Identifier(name), pos + 1)),
        TokenView::Integer(i) => Ok((ExpressionView::IntegerLiteral(i), pos + 1)),
        TokenView::String(s) => Ok((ExpressionView::String(s), pos + 1)),
        TokenView::True => Ok((ExpressionView::Bool(true), pos + 1)),
        TokenView::False => Ok((ExpressionView::Bool(false), pos + 1)),
        TokenView::Bang => prefix_at(ts, pos),
        TokenView::Minus => prefix_at(ts, pos),
        TokenView::LParen => group_at(ts, pos),
        TokenView::If => conditional_at(ts, pos),
        TokenView::Func => function_at(ts, pos),
        TokenView::LBracket => array_at(ts, pos),
        TokenView::LBrace => hash_at(ts, pos),
        _ => unexpected(ts, pos),
    }
}

/// The prefix operator that a token spells, if it spells one.
pub open spec fn prefix_of(token: TokenView) -> Option<Prefix> {
    match token {
        TokenView::Bang => Some(Prefix::Bang),
        TokenView::Minus => Some(Prefix::Minus),
        _ => None,
    }
}

/// A prefix operator at `pos` and its operand: the expression after it whose
/// operators bind tighter than a prefix operator.
pub open spec fn prefix_at(ts: Seq<TokenView>, pos: int) -> Parsed<ExpressionView>
    decreases ts.len() - pos, 0nat,
{
    match prefix_of(token_at(ts, pos)) {
        Some(op) => match expression_at(ts, pos + 1, Precedence::Prefix) {
            Ok((operand, next)) => Ok((ExpressionView::Prefix(op, Box::new(operand)), next)),
            Err(error) => Err(error),
        },
        None => unexpected(ts, pos),
    }
}

/// An expression in parentheses: the opening parenthesis at `pos`, an
/// expression with no bound on its operators, and the closing parenthesis.
pub open spec fn group_at(ts: Seq<TokenView>, pos: int) -> Parsed<ExpressionView>
    decreases ts.len() - pos, 0nat,
{
    if token_at(ts, pos) != TokenView::LParen {
        unexpected(ts, pos)
    } else {
        match expression_at(ts, pos + 1, Precedence::Lowest) {
            Ok((inner, next)) => if token_at(ts, next) == TokenView::RParen {
                Ok((inner, next + 1))
            } else {
                unexpected(ts, next)
            },
            Err(error) => Err(error),
        }
    }
}

/// A conditional: `if` at `pos`, the condition in parentheses, a block, and
/// optionally `else` and a second block.
pub open spec fn conditional_at(ts: Seq<TokenView>, pos: int) -> Parsed<ExpressionView>
    decreases ts.len() - pos, 0nat,
{
    if token_at(ts, pos) != TokenView::If {
        unexpected(ts, pos)
    } else {
        match group_at(ts, pos + 1) {
            Ok((condition, after_condition)) => if !(pos < after_condition <= ts.len()) {
                unexpected(ts, pos)
            } else {
                match block_at(ts, after_condition) {
                    Ok((then, after_then)) => if !(pos < after_then <= ts.len()) {
                        unexpected(ts, pos)
                    } else if token_at(ts, after_then) == TokenView::Else {
                        match block_at(ts, after_then + 1) {
                            Ok((otherwise, end)) => Ok(
                                (
                                    ExpressionView::If(Box::new(condition), then, Some(otherwise)),
                                    end,
                                ),
                            ),
                            Err(error) => Err(error),
                        }
                    } else {
                        Ok((ExpressionView::If(Box::new(condition), then, None), after_then))
                    },
                    Err(error) => Err(error),
                }
            },
            Err(error) => Err(error),
        }
    }
}

/// A function literal: `fn` at `pos`, a parameter list and a block.
pub open spec fn function_at(ts: Seq<TokenView>, pos: int) -> Parsed<ExpressionView>
    decreases ts.len() - pos, 0nat,
{
    if token_at(ts, pos) != TokenView::Func {
        unexpected(ts, pos)
    } else {
        match parameters_at(ts, pos + 1) {
            Ok((parameters, after_parameters)) => if !(pos < after_parameters <= ts.len()) {
                unexpected(ts, pos)
            } else {
                match block_at(ts, after_parameters) {
                    Ok((body, end)) => Ok(
                        (ExpressionView::FunctionLiteral(parameters, body), end),
                    ),
                    Err(error) => Err(error),
                }
            },
            Err(error) => Err(error),
        }
    }
}

/// An array literal: an opening bracket at `pos`, then expressions up to the
/// closing bracket.
pub open spec fn array_at(ts: Seq<TokenView>, pos: int) -> Parsed<ExpressionView>
    decreases ts.len() - pos, 0nat,
{
    if token_at(ts, pos) != TokenView::LBracket {
        unexpected(ts, pos)
    } else {
        match expressions_until(ts, pos + 1, TokenView::RBracket) {
            Ok((members, next)) => Ok((ExpressionView::ArrayLiteral(members), next)),
            Err(error) => Err(error),
        }
    }
}

/// A hash literal: an opening brace at `pos`, then pairs up to the closing
/// brace.
pub open spec fn hash_at(ts: Seq<TokenView>, pos: int) -> Parsed<ExpressionView>
    decreases ts.len() - pos, 0nat,
{
    if token_at(ts, pos) != TokenView::LBrace {
        unexpected(ts, pos)
    } else {
        match pairs_until(ts, pos + 1) {
            Ok((pairs, next)) => Ok((ExpressionView::HashMapLiteral(pairs), next)),
            Err(error) => Err(error),
        }
    }
}

/// The arguments of a call: an opening parenthesis at `pos`, then
/// expressions up to the closing parenthesis.
pub open spec fn arguments_at(ts: Seq<TokenView>, pos: int) -> Parsed<Seq<ExpressionView>>
    decreases ts.len() - pos, 0nat,
{
    if token_at(ts, pos) != TokenView::LParen {
        unexpected(ts, pos)
    } else {
        expressions_until(ts, pos + 1, TokenView::RParen)
    }
}

/// The call of `callee` with the arguments at `pos`.
pub open spec fn call_at(ts: Seq<TokenView>, pos: int, callee: ExpressionView) -> Parsed<
    ExpressionView,
>
    decreases ts.len() - pos, 1nat,
{
    match arguments_at(ts, pos) {
        Ok((arguments, next)) => Ok((ExpressionView::Call(Box::new(callee), arguments), next)),
        Err(error) => Err(error),
    }
}

/// The subscript of `container`: an opening bracket at `pos`, an expression
/// with no bound on its operators, and the closing bracket.
pub open spec fn subscript_at(ts: Seq<TokenView>, pos: int, container: ExpressionView) -> Parsed<
    ExpressionView,
>
    decreases ts.len() - pos, 0nat,
{
    if token_at(ts, pos) != TokenView::LBracket {
        unexpected(ts, pos)
    } else {
        match expression_at(ts, pos + 1, Precedence::Lowest) {
            Ok((index, next)) => if token_at(ts, next) == TokenView::RBracket {
                Ok((ExpressionView::Index(Box::new(container), Box::new(index)), next + 1))
            } else {
                unexpected(ts, next)
            },
            Err(error) => Err(error),
        }
    }
}

/// The expression that `left` becomes by the one operator at `pos`: a binary
/// operator takes as its right operand the expression after it whose
/// operators bind tighter than itself; an opening parenthesis takes a list
/// of arguments; an opening bracket takes a subscript. With any other token
/// `left` stays as it is.
pub open spec fn operator_at(ts: Seq<TokenView>, pos: int, left: ExpressionView) -> Parsed<
    ExpressionView,
>
    decreases ts.len() - pos, 2nat,
{
    let token = token_at(ts, pos);
    match infix_of(token) {
        Some(op) => match expression_at(ts, pos + 1, precedence_of(token)) {
            Ok((right, next)) => Ok(
                (ExpressionView::Infix(op, Box::new(left), Box::new(right)), next),
            ),
            Err(error) => Err(error),
        },
        None => match token {
            TokenView::LParen => call_at(ts, pos, left),
            TokenView::LBracket => subscript_at(ts, pos, left),
            _ => Ok((left, pos + 1)),
        },
    }
}

/// The expression that `left` grows into by the operators from `pos` on:
/// one operator after the other, for as long as the token at the position
/// binds tighter than `bound`. Operators of one precedence so group to the
/// left.
pub open spec fn operators_from(
    ts: Seq<TokenView>,
    pos: int,
    bound: Precedence,
    left: ExpressionView,
) -> Parsed<ExpressionView>
    decreases ts.len() - pos, 3nat,
{
    if rank(precedence_of(token_at(ts, pos))) <= rank(bound) {
        Ok((left, pos))
    } else {
        match operator_at(ts, pos, left) {
            Ok((grown, next)) => if pos < next <= ts.len() {
                operators_from(ts, next, bound, grown)
            } else {
                unexpected(ts, pos)
            },
            Err(error) => Err(error),
        }
    }
}

/// The expressions of a list from `pos` on, up to and including the token
/// `close`; a comma after an expression is optional.
pub open spec fn expressions_until(ts: Seq<TokenView>, pos: int, close: TokenView) -> Parsed<
    Seq<ExpressionView>,
>
    decreases ts.len() - pos, 3nat,
{
    if token_at(ts, pos) == close {
        Ok((Seq::empty(), pos + 1))
    } else {
        match expression_at(ts, pos, Precedence::Lowest) {
            Ok((first, next)) => if pos < next <= ts.len() {
                match expressions_until(ts, skip(ts, next, TokenView::Comma), close) {
                    Ok((rest, end)) => Ok((seq![first] + rest, end)),
                    Err(error) => Err(error),
                }
            } else {
                unexpected(ts, pos)
            },
            Err(error) => Err(error),
        }
    }
}

/// One pair of a hash literal at `pos`: a key, a colon and a value.
pub open spec fn pair_at(ts: Seq<TokenView>, pos: int) -> Parsed<(ExpressionView, ExpressionView)>
    decreases ts.len() - pos, 3nat,
{
    match expression_at(ts, pos, Precedence::Lowest) {
        Ok((key, colon)) => if token_at(ts, colon) != TokenView::Colon {
            unexpected(ts, colon)
        } else if !(pos < colon < ts.len()) {
            unexpected(ts, pos)
        } else {
            match expression_at(ts, colon + 1, Precedence::Lowest) {
                Ok((value, next)) => Ok(((key, value), next)),
                Err(error) => Err(error),
            }
        },
        Err(error) => Err(error),
    }
}

/// The pairs of a hash literal from `pos` on, up to and including the
/// closing brace; a comma after a pair is optional.
pub open spec fn pairs_until(ts: Seq<TokenView>, pos: int) -> Parsed<
    Seq<(ExpressionView, ExpressionView)>,
>
    decreases ts.len() - pos, 4nat,
{
    if token_at(ts, pos) == TokenView::RBrace {
        Ok((Seq::empty(), pos + 1))
    } else {
        match pair_at(ts, pos) {
            Ok((first, next)) => if pos < next <= ts.len() {
                match pairs_until(ts, skip(ts, next, TokenView::Comma)) {
                    Ok((rest, end)) => Ok((seq![first] + rest, end)),
                    Err(error) => Err(error),
                }
            } else {
                unexpected(ts, pos)
            },
            Err(error) => Err(error),
        }
    }
}

/// A `let` statement: `let` at `pos`, a name, `=` and an expression; a
/// semicolon that follows belongs to it.
pub open spec fn let_at(ts: Seq<TokenView>, pos: int) -> Parsed<StatementView>
    decreases ts.len() - pos, 3nat,
{
    if token_at(ts, pos) != TokenView::Let {
        unexpected(ts, pos)
    } else {
        match token_at(ts, pos + 1) {
            TokenView::Identifiere(name) => if token_at(ts, pos + 2) == TokenView::Assign {
                match expression_at(ts, pos + 3, Precedence::Lowest) {
                    Ok((value, next)) => Ok(
                        (StatementView::Let(name, value), skip(ts, next, TokenView::Semicolon)),
                    ),
                    Err(error) => Err(error),
                }
            } else {
                unexpected(ts, pos + 2)
            },
            _ => unexpected(ts, pos + 1),
        }
    }
}

/// A `return` statement: `return` at `pos`, with or without an expression;
/// a semicolon that follows belongs to it. A semicolon right after `return`
/// means that there is no expression; anything else must start one.
pub open spec fn return_at(ts: Seq<TokenView>, pos: int) -> Parsed<StatementView>
    decreases ts.len() - pos, 3nat,
{
    if token_at(ts, pos) != TokenView::Ret {
        unexpected(ts, pos)
    } else {
        match token_at(ts, pos + 1) {
            TokenView::Semicolon => Ok((StatementView::Return(None), pos + 2)),
            _ => match expression_at(ts, pos + 1, Precedence::Lowest) {
                Ok((value, next)) => Ok(
                    (StatementView::Return(Some(value)), skip(ts, next, TokenView::Semicolon)),
                ),
                Err(error) => Err(error),
            },
        }
    }
}

/// An expression as a statement; a semicolon that follows belongs to it.
pub open spec fn expression_statement_at(ts: Seq<TokenView>, pos: int) -> Parsed<StatementView>
    decreases ts.len() - pos, 3nat,
{
    match expression_at(ts, pos, Precedence::Lowest) {
        Ok((value, next)) => Ok(
            (StatementView::Expression(value), skip(ts, next, TokenView::Semicolon)),
        ),
        Err(error) => Err(error),
    }
}

/// The statement that starts at `pos`: a `let` statement, a `return`
/// statement, or else an expression as a statement.
pub open spec fn statement_at(ts: Seq<TokenView>, pos: int) -> Parsed<StatementView>
    decreases ts.len() - pos, 4nat,
{
    match token_at(ts, pos) {
        TokenView::Let => let_at(ts, pos),
        TokenView::Ret => return_at(ts, pos),
        _ => expression_statement_at(ts, pos),
    }
}

/// The statements of a block from `pos` on, up to and including the closing
/// brace. The input must not end before the brace.
pub open spec fn statements_until_brace(ts: Seq<TokenView>, pos: int) -> Parsed<
    Seq<StatementView>,
>
    decreases ts.len() - pos, 5nat,
{
    match token_at(ts, pos) {
        TokenView::RBrace => Ok((Seq::empty(), pos + 1)),
        TokenView::Eof => unexpected(ts, pos),
        _ => match statement_at(ts, pos) {
            Ok((first, next)) => if pos < next <= ts.len() {
                match statements_until_brace(ts, next) {
                    Ok((rest, end)) => Ok((seq![first] + rest, end)),
                    Err(error) => Err(error),
                }
            } else {
                unexpected(ts, pos)
            },
            Err(error) => Err(error),
        },
    }
}

/// A block: an opening brace at `pos`, then statements up to the closing
/// brace.
pub open spec fn block_at(ts: Seq<TokenView>, pos: int) -> Parsed<Seq<StatementView>>
    decreases ts.len() - pos, 6nat,
{
    if token_at(ts, pos) == TokenView::LBrace {
        statements_until_brace(ts, pos + 1)
    } else {
        unexpected(ts, pos)
    }
}

/// The statements from `pos` on, up to the end of the input.
pub open spec fn statements_to_end(ts: Seq<TokenView>, pos: int) -> Parsed<Seq<StatementView>>
    decreases ts.len() - pos, 5nat,
{
    if token_at(ts, pos) == TokenView::Eof {
        Ok((Seq::empty(), pos))
    } else {
        match statement_at(ts, pos) {
            Ok((first, next)) => if pos < next <= ts.len() {
                match statements_to_end(ts, next) {
                    Ok((rest, end)) => Ok((seq![first] + rest, end)),
                    Err(error) => Err(error),
                }
            } else {
                unexpected(ts, pos)
            },
            Err(error) => Err(error),
        }
    }
}

/// The program that the tokens from `pos` on are: the statements up to the
/// end of the input.
pub open spec fn program_from(ts: Seq<TokenView>, pos: int) -> Result<
    Seq<StatementView>,
    ParseErrorView,
> {
    match statements_to_end(ts, pos) {
        Ok((stmts, _)) => Ok(stmts),
        Err(error) => Err(error),
    }
}

/// The program that a token sequence is.
pub open spec fn program_of(ts: Seq<TokenView>) -> Result<Seq<StatementView>, ParseErrorView> {
    program_from(ts, 0)
}

/// A list of names ends after its start.
pub proof fn lemma_names_advance(ts: Seq<TokenView>, pos: int)
    requires
        0 <= pos,
    ensures
        advances(names_until(ts, pos), ts, pos),
    decreases ts.len() - pos,
{
    match token_at(ts, pos) {
        TokenView::Identifiere(_) => {
            lemma_names_advance(ts, skip(ts, pos + 1, TokenView::Comma));
        },
        _ => {},
    }
}

/// An expression ends after its start.
pub proof fn lemma_expression_advances(ts: Seq<TokenView>, pos: int, bound: Precedence)
    requires
        0 <= pos,
    ensures
        advances(expression_at(ts, pos, bound), ts, pos),
    decreases ts.len() - pos, 2nat,
{
    match primary_at(ts, pos) {
        Ok((left, next)) => {
            if pos < next <= ts.len() {
                lemma_operators_advance(ts, next, bound, left);
            }
        },
        Err(_) => {},
    }
}

/// The operators after an expression end at or after their start.
pub proof fn lemma_operators_advance(
    ts: Seq<TokenView>,
    pos: int,
    bound: Precedence,
    left: ExpressionView,
)
    requires
        0 <= pos <= ts.len(),
    ensures
        operators_from(ts, pos, bound, left) matches Ok((_, next)) ==> pos <= next <= ts.len(),
    decreases ts.len() - pos, 3nat,
{
    if rank(precedence_of(token_at(ts, pos))) > rank(bound) {
        match operator_at(ts, pos, left) {
            Ok((grown, next)) => {
                if pos < next <= ts.len() {
                    lemma_operators_advance(ts, next, bound, grown);
                }
            },
            Err(_) => {},
        }
    }
}

/// A list of expressions ends after its start.
pub proof fn lemma_expressions_advance(ts: Seq<TokenView>, pos: int, close: TokenView)
    requires
        0 <= pos,
        close != TokenView::Eof,
    ensures
        advances(expressions_until(ts, pos, close), ts, pos),
    decreases ts.len() - pos, 3nat,
{
    if token_at(ts, pos) != close {
        match expression_at(ts, pos, Precedence::Lowest) {
            Ok((first, next)) => {
                if pos < next <= ts.len() {
                    lemma_expressions_advance(ts, skip(ts, next, TokenView::Comma), close);
                }
            },
            Err(_) => {},
        }
    }
}

/// A pair of a hash literal ends after its start.
pub proof fn lemma_pair_advances(ts: Seq<TokenView>, pos: int)
    requires
        0 <= pos,
    ensures
        advances(pair_at(ts, pos), ts, pos),
    decreases ts.len() - pos, 3nat,
{
    match expression_at(ts, pos, Precedence::Lowest) {
        Ok((key, colon)) => {
            if token_at(ts, colon) == TokenView::Colon && pos < colon < ts.len() {
                lemma_expression_advances(ts, colon + 1, Precedence::Lowest);
            }
        },
        Err(_) => {},
    }
}

/// The pairs of a hash literal end after their start.
pub proof fn lemma_pairs_advance(ts: Seq<TokenView>, pos: int)
    requires
        0 <= pos,
    ensures
        advances(pairs_until(ts, pos), ts, pos),
    decreases ts.len() - pos, 4nat,
{
    if token_at(ts, pos) != TokenView::RBrace {
        match pair_at(ts, pos) {
            Ok((first, next)) => {
                if pos < next <= ts.len() {
                    lemma_pairs_advance(ts, skip(ts, next, TokenView::Comma));
                }
            },
            Err(_) => {},
        }
    }
}

/// A statement ends after its start.
pub proof fn lemma_statement_advances(ts: Seq<TokenView>, pos: int)
    requires
        0 <= pos,
    ensures
        advances(statement_at(ts, pos), ts, pos),
    decreases ts.len() - pos, 4nat,
{
    match token_at(ts, pos) {
        TokenView::Let => {
            let value = let_at(ts, pos);
            lemma_expression_advances(ts, pos + 3, Precedence::Lowest);
        },
        TokenView::Ret => {
            let value = return_at(ts, pos);
            lemma_expression_advances(ts, pos + 1, Precedence::Lowest);
        },
        _ => {
            let value = expression_statement_at(ts, pos);
            lemma_expression_advances(ts, pos, Precedence::Lowest);
        },
    }
}

/// The statements of a block end after their start.
pub proof fn lemma_statements_advance(ts: Seq<TokenView>, pos: int)
    requires
        0 <= pos,
    ensures
        advances(statements_until_brace(ts, pos), ts, pos),
    decreases ts.len() - pos, 5nat,
{
    match token_at(ts, pos) {
        TokenView::RBrace => {},
        TokenView::Eof => {},
        _ => {
            match statement_at(ts, pos) {
                Ok((first, next)) => {
                    if pos < next <= ts.len() {
                        lemma_statements_advance(ts, next);
                    }
                },
                Err(_) => {},
            }
        },
    }
}

/// A block ends after its start.
pub proof fn lemma_block_advances(ts: Seq<TokenView>, pos: int)
    requires
        0 <= pos,
    ensures
        advances(block_at(ts, pos), ts, pos),
    decreases ts.len() - pos, 6nat,
{
    if token_at(ts, pos) == TokenView::LBrace {
        lemma_statements_advance(ts, pos + 1);
    }
}

/// A primary expression ends after its start.
pub proof fn lemma_primary_advances(ts: Seq<TokenView>, pos: int)
    requires
        0 <= pos,
    ensures
        advances(primary_at(ts, pos), ts, pos),
        advances(group_at(ts, pos), ts, pos),
        advances(parameters_at(ts, pos), ts, pos),
{
    lemma_expression_advances(ts, pos + 1, Precedence::Prefix);
    lemma_expression_advances(ts, pos + 1, Precedence::Lowest);
    lemma_names_advance(ts, pos + 1);
    lemma_names_advance(ts, pos + 2);
    lemma_expressions_advance(ts, pos + 1, TokenView::RBracket);
    lemma_pairs_advance(ts, pos + 1);
    let prefix = prefix_at(ts, pos);
    let array = array_at(ts, pos);
    let hash = hash_at(ts, pos);
    assert(advances(group_at(ts, pos), ts, pos));
    assert(advances(conditional_at(ts, pos), ts, pos)) by {
        match group_at(ts, pos + 1) {
            Ok((condition, after_condition)) => {
                if pos < after_condition <= ts.len() {
                    lemma_block_advances(ts, after_condition);
                    match block_at(ts, after_condition) {
                        Ok((then, after_then)) => {
                            if pos < after_then <= ts.len() {
                                lemma_block_advances(ts, after_then + 1);
                            }
                        },
                        Err(_) => {},
                    }
                }
            },
            Err(_) => {},
        }
    }
    assert(advances(function_at(ts, pos), ts, pos)) by {
        match parameters_at(ts, pos + 1) {
            Ok((parameters, after_parameters)) => {
                if pos < after_parameters <= ts.len() {
                    lemma_block_advances(ts, after_parameters);
                }
            },
            Err(_) => {},
        }
    }
}

/// An operator, a call or a subscript ends after its start.
pub proof fn lemma_operator_advances(ts: Seq<TokenView>, pos: int, left: ExpressionView)
    requires
        0 <= pos,
        rank(precedence_of(token_at(ts, pos))) > 0,
    ensures
        advances(operator_at(ts, pos, left), ts, pos),
{
    lemma_expression_advances(ts, pos + 1, precedence_of(token_at(ts, pos)));
    lemma_expression_advances(ts, pos + 1, Precedence::Lowest);
    lemma_expressions_advance(ts, pos + 1, TokenView::RParen);
    let call = call_at(ts, pos, left);
    let arguments = arguments_at(ts, pos);
    let subscript = subscript_at(ts, pos, left);
}

} // verus!
