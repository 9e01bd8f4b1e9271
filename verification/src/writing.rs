//! Which syntax trees can be written down: the trees whose text the lexer
//! and the parser read back as the same tree, and the tokens of that text.
//!
//! These are the trees that the parser can give at all. Their names are
//! names that the lexer reads as identifiers, their integer literals are not
//! negative, their strings hold no double quote, and their infix operators
//! are those that a token spells.

use crate::ast::{ExpressionView, Infix, Prefix, StatementView};
use crate::lexer::{word_token, TokenView};
use crate::text::{is_letter, is_space, is_word_char};
use vstd::prelude::*;

verus! {

/// Whether a name is one that the lexer reads as an identifier: a letter,
/// then word characters, and no keyword.
pub open spec fn valid_name(name: Seq<char>) -> bool {
    &&& name.len() > 0
    &&& is_letter(name[0])
    &&& !is_space(name[0])
    &&& forall|i: int| 1 <= i < name.len() ==> is_word_char(#[trigger] name[i])
    &&& word_token(name) == TokenView::Identifiere(name)
}

/// Whether an expression can be written down.
pub open spec fn writable(e: ExpressionView) -> bool
    decreases e,
{
    match e {
        ExpressionView::Identifier(name) => valid_name(name),
        ExpressionView::IntegerLiteral(i) => i >= 0,
        ExpressionView::String(s) => forall|i: int| 0 <= i < s.len() ==> #[trigger] s[i] != '"',
        ExpressionView::Bool(_) => true,
        ExpressionView::Prefix(_, operand) => writable(*operand),
        ExpressionView::Infix(op, left, right) => {
            &&& op != Infix::LBracket
            &&& writable(*left)
            &&& writable(*right)
        },
        ExpressionView::If(condition, then, otherwise) => {
            &&& writable(*condition)
            &&& statements_writable(then)
            &&& match otherwise {
                Some(block) => statements_writable(block),
                None => true,
            }
        },
        ExpressionView::FunctionLiteral(parameters, body) => {
            &&& forall|i: int| 0 <= i < parameters.len() ==> valid_name(#[trigger] parameters[i])
            &&& statements_writable(body)
        },
        ExpressionView::HashMapLiteral(pairs) => forall|i: int|
            0 <= i < pairs.len() ==> writable((#[trigger] pairs[i]).0) && writable(pairs[i].1),
        ExpressionView::ArrayLiteral(members) => forall|i: int|
            0 <= i < members.len() ==> writable(#[trigger] members[i]),
        ExpressionView::Index(container, index) => writable(*container) && writable(*index),
        ExpressionView::Call(callee, arguments) => {
            &&& writable(*callee)
            &&& forall|i: int| 0 <= i < arguments.len() ==> writable(#[trigger] arguments[i])
        },
    }
}

/// Whether a statement can be written down.
pub open spec fn statement_writable(s: StatementView) -> bool
    decreases s,
{
    match s {
        StatementView::Let(name, value) => valid_name(name) && writable(value),
        StatementView::Return(Some(value)) => writable(value),
        StatementView::Return(None) => true,
        StatementView::Expression(value) => writable(value),
    }
}

/// Whether every statement of a sequence can be written down.
pub open spec fn statements_writable(stmts: Seq<StatementView>) -> bool
    decreases stmts,
{
    forall|i: int| 0 <= i < stmts.len() ==> statement_writable(#[trigger] stmts[i])
}

/// The token that spells a prefix operator.
pub open spec fn prefix_token(op: Prefix) -> TokenView {
    match op {
        Prefix::Minus => TokenView::Minus,
        Prefix::Bang => TokenView::Bang,
    }
}

/// The token that spells an infix operator.
pub open spec fn infix_token(op: Infix) -> TokenView {
    match op {
        Infix::Eq => TokenView::Eq,
        Infix::NotEq => TokenView::NotEq,
        Infix::Lt => TokenView::Lt,
        Infix::Gt => TokenView::Gt,
        Infix::Plus => TokenView::Plus,
        Infix::Minus => TokenView::Minus,
        Infix::Asterisk => TokenView::Asterisk,
        Infix::Slash => TokenView::Slash,
        Infix::LBracket => TokenView::LBracket,
    }
}

/// The tokens of the text of an expression.
pub open spec fn expression_tokens(e: ExpressionView) -> Seq<TokenView>
    decreases e, 0nat,
{
    match e {
        ExpressionView::Identifier(name) => seq![TokenView::Identifiere(name)],
        ExpressionView::IntegerLiteral(i) => seq![TokenView::Integer(i)],
        ExpressionView::String(s) => seq![TokenView::String(s)],
        ExpressionView::Bool(b) => if b {
            seq![TokenView::True]
        } else {
            seq![TokenView::False]
        },
        ExpressionView::Prefix(op, operand) => seq![TokenView::LParen] + (seq![
            prefix_token(op),
        ] + (expression_tokens(*operand) + seq![TokenView::RParen])),
        ExpressionView::Infix(op, left, right) => seq![TokenView::LParen] + (expression_tokens(
            *left,
        ) + (seq![infix_token(op)] + (expression_tokens(*right) + seq![TokenView::RParen]))),
        ExpressionView::If(condition, then, otherwise) => seq![TokenView::If] + (seq![
            TokenView::LParen,
        ] + (expression_tokens(*condition) + (seq![TokenView::RParen] + (block_tokens(then)
            + otherwise_tokens(otherwise))))),
        ExpressionView::FunctionLiteral(parameters, body) => seq![TokenView::Func] + (seq![
            TokenView::LParen,
        ] + (names_tokens(parameters, 0) + block_tokens(body))),
        ExpressionView::HashMapLiteral(pairs) => seq![TokenView::LBrace] + pairs_tokens(pairs, 0),
        ExpressionView::ArrayLiteral(members) => seq![TokenView::LBracket] + expressions_tokens(
            members,
            0,
            TokenView::RBracket,
        ),
        ExpressionView::Index(container, index) => expression_tokens(*container) + (seq![
            TokenView::LBracket,
        ] + (expression_tokens(*index) + seq![TokenView::RBracket])),
        ExpressionView::Call(callee, arguments) => expression_tokens(*callee) + (seq![
            TokenView::LParen,
        ] + expressions_tokens(arguments, 0, TokenView::RParen)),
    }
}

/// The tokens of the second branch of a conditional: `else` and the block,
/// or nothing.
pub open spec fn otherwise_tokens(otherwise: Option<Seq<StatementView>>) -> Seq<TokenView>
    decreases otherwise, 0nat,
{
    match otherwise {
        Some(block) => seq![TokenView::Else] + block_tokens(block),
        None => Seq::empty(),
    }
}

/// The tokens of the names from the index `from` on, with a comma between
/// each two, and of the closing parenthesis after them.
pub open spec fn names_tokens(names: Seq<Seq<char>>, from: int) -> Seq<TokenView>
    decreases names.len() - from,
{
    if !(0 <= from < names.len()) {
        seq![TokenView::RParen]
    } else if from == names.len() - 1 {
        seq![TokenView::Identifiere(names[from])] + seq![TokenView::RParen]
    } else {
        seq![TokenView::Identifiere(names[from])] + (seq![TokenView::Comma] + names_tokens(
            names,
            from + 1,
        ))
    }
}

/// The tokens of the expressions from the index `from` on, with a comma
/// between each two, and of the token `close` after them.
pub open spec fn expressions_tokens(es: Seq<ExpressionView>, from: int, close: TokenView) -> Seq<
    TokenView,
>
    decreases es, es.len() - from,
{
    if !(0 <= from < es.len()) {
        seq![close]
    } else if from == es.len() - 1 {
        expression_tokens(es[from]) + seq![close]
    } else {
        expression_tokens(es[from]) + (seq![TokenView::Comma] + expressions_tokens(
            es,
            from + 1,
            close,
        ))
    }
}

/// The tokens of the pairs from the index `from` on, each as key, colon and
/// value, with a comma between each two, and of the closing brace after
/// them.
pub open spec fn pairs_tokens(pairs: Seq<(ExpressionView, ExpressionView)>, from: int) -> Seq<
    TokenView,
>
    decreases pairs, pairs.len() - from,
{
    if !(0 <= from < pairs.len()) {
        seq![TokenView::RBrace]
    } else {
        expression_tokens(pairs[from].0) + (seq![TokenView::Colon] + (expression_tokens(
            pairs[from].1,
        ) + (if from == pairs.len() - 1 {
            seq![TokenView::RBrace]
        } else {
            seq![TokenView::Comma] + pairs_tokens(pairs, from + 1)
        })))
    }
}

/// The tokens of the text of a statement.
pub open spec fn statement_tokens(s: StatementView) -> Seq<TokenView>
    decreases s, 0nat,
{
    match s {
        StatementView::Let(name, value) => seq![TokenView::Let] + (seq![
            TokenView::Identifiere(name),
        ] + (seq![TokenView::Assign] + (expression_tokens(value) + seq![TokenView::Semicolon]))),
        StatementView::Return(None) => seq![TokenView::Ret] + seq![TokenView::Semicolon],
        StatementView::Return(Some(value)) => seq![TokenView::Ret] + (expression_tokens(value)
            + seq![TokenView::Semicolon]),
        StatementView::Expression(value) => expression_tokens(value) + seq![
            TokenView::Semicolon,
        ],
    }
}

/// The tokens of the statements from the index `from` on, and of the
/// closing brace after them.
pub open spec fn statements_tokens(stmts: Seq<StatementView>, from: int) -> Seq<TokenView>
    decreases stmts, stmts.len() - from,
{
    if !(0 <= from < stmts.len()) {
        seq![TokenView::RBrace]
    } else {
        statement_tokens(stmts[from]) + statements_tokens(stmts, from + 1)
    }
}

/// The tokens of the text of a block.
pub open spec fn block_tokens(stmts: Seq<StatementView>) -> Seq<TokenView>
    decreases stmts, stmts.len() + 1,
{
    seq![TokenView::LBrace] + statements_tokens(stmts, 0)
}

/// The tokens of the statements of a program from the index `from` on.
pub open spec fn program_tokens(stmts: Seq<StatementView>, from: int) -> Seq<TokenView>
    decreases stmts.len() - from,
{
    if !(0 <= from < stmts.len()) {
        Seq::empty()
    } else {
        statement_tokens(stmts[from]) + program_tokens(stmts, from + 1)
    }
}

/// Whether a sequence holds the items `part` from the index `pos` on.
#[verifier::opaque]
pub open spec fn holds<T>(whole: Seq<T>, pos: int, part: Seq<T>) -> bool {
    &&& 0 <= pos
    &&& pos + part.len() <= whole.len()
    &&& forall|i: int| 0 <= i < part.len() ==> whole[pos + i] == #[trigger] part[i]
}

/// A sequence holds itself from its start on.
pub proof fn lemma_holds_whole<T>(whole: Seq<T>)
    ensures
        holds(whole, 0, whole),
{
    reveal(holds);
}

/// What a sequence holds lies within it.
pub proof fn lemma_holds_within<T>(whole: Seq<T>, pos: int, part: Seq<T>)
    requires
        holds(whole, pos, part),
    ensures
        0 <= pos,
        pos + part.len() <= whole.len(),
{
    reveal(holds);
}

/// A sequence that holds one item holds it at the position.
pub proof fn lemma_holds_one<T>(whole: Seq<T>, pos: int, only: T)
    requires
        holds(whole, pos, seq![only]),
    ensures
        0 <= pos < whole.len(),
        whole[pos] == only,
{
    reveal(holds);
    assert(seq![only][0] == only);
}

/// What a sequence holds stands in it, item by item.
pub proof fn lemma_holds_index<T>(whole: Seq<T>, pos: int, part: Seq<T>, i: int)
    requires
        holds(whole, pos, part),
        0 <= i < part.len(),
    ensures
        0 <= pos + i < whole.len(),
        whole[pos + i] == part[i],
{
    reveal(holds);
}

/// What a sequence holds is the stretch of it from the position on.
pub proof fn lemma_holds_subrange<T>(whole: Seq<T>, pos: int, part: Seq<T>)
    requires
        holds(whole, pos, part),
    ensures
        0 <= pos,
        pos + part.len() <= whole.len(),
        whole.subrange(pos, pos + part.len()) == part,
{
    reveal(holds);
    assert(whole.subrange(pos, pos + part.len()) =~= part);
}

/// A sequence holds two parts in a row exactly when it holds the first and,
/// right after it, the second.
pub proof fn lemma_holds_split<T>(whole: Seq<T>, pos: int, first: Seq<T>, second: Seq<T>)
    ensures
        holds(whole, pos, first + second) <==> holds(whole, pos, first) && holds(
            whole,
            pos + first.len(),
            second,
        ),
{
    reveal(holds);
    let both = first + second;
    if holds(whole, pos, both) {
        assert forall|i: int| 0 <= i < first.len() implies whole[pos + i] == #[trigger] first[i] by {
            assert(both[i] == first[i]);
        }
        assert forall|i: int| 0 <= i < second.len() implies whole[pos + first.len() + i]
            == #[trigger] second[i] by {
            assert(both[first.len() + i] == second[i]);
        }
    }
    if holds(whole, pos, first) && holds(whole, pos + first.len(), second) {
        assert forall|i: int| 0 <= i < both.len() implies whole[pos + i] == #[trigger] both[i] by {
            if i < first.len() {
                assert(both[i] == first[i]);
            } else {
                assert(both[i] == second[i - first.len()]);
                assert(whole[pos + first.len() + (i - first.len())] == second[i - first.len()]);
            }
        }
    }
}

/// A sequence that holds one item and then more holds the item at the
/// position and the rest after it.
pub proof fn lemma_holds_first<T>(whole: Seq<T>, pos: int, first: T, rest: Seq<T>)
    requires
        holds(whole, pos, seq![first] + rest),
    ensures
        0 <= pos < whole.len(),
        whole[pos] == first,
        holds(whole, pos + 1, rest),
{
    lemma_holds_split(whole, pos, seq![first], rest);
    lemma_holds_one(whole, pos, first);
}

} // verus!
