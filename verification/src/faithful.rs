//! What the lexer and the parser hand on: every tree that was parsed from
//! a text is one that can be written down again.

use crate::ast::ExpressionView;
use crate::grammar::{
    arguments_at, array_at, block_at, call_at, conditional_at, expression_at,
    expression_statement_at, expressions_until, function_at, group_at, hash_at, infix_of, let_at,
    names_until, operator_at, operators_from, pair_at, pairs_until, parameters_at, precedence_of,
    prefix_at, primary_at, rank, return_at, skip, statement_at, statements_to_end,
    statements_until_brace, subscript_at, Precedence,
};
use crate::lexer::{
    lemma_lexeme_advances, lemma_skip_spaces_bounds, lexeme_at, quote_at, skip_spaces, token_at,
    tokens_from, word_end, Lexeme, TokenView,
};
use crate::text::{is_space, is_word_char};
use crate::writing::{statement_writable, statements_writable, valid_name, writable};
use vstd::prelude::*;

verus! {

/// Whether a token is one whose text the lexer reads as the token again:
/// an identifier with a name that is read as an identifier, an integer that
/// is not negative, a string without a double quote in it, or any other
/// token.
pub open spec fn token_ok(token: TokenView) -> bool {
    match token {
        TokenView::Identifiere(name) => valid_name(name),
        TokenView::Integer(i) => i >= 0,
        TokenView::String(s) => forall|i: int| 0 <= i < s.len() ==> #[trigger] s[i] != '"',
        _ => true,
    }
}

/// Whether every token of a sequence is such a token.
pub open spec fn tokens_ok(ts: Seq<TokenView>) -> bool {
    forall|i: int| 0 <= i < ts.len() ==> token_ok(#[trigger] ts[i])
}

/// Where the skipping of blank space stops, there is no blank space.
pub proof fn lemma_skip_spaces_stops(s: Seq<char>, pos: int)
    requires
        0 <= pos <= s.len(),
    ensures
        skip_spaces(s, pos) < s.len() ==> !is_space(s[skip_spaces(s, pos)]),
    decreases s.len() - pos,
{
    if pos < s.len() && is_space(s[pos]) {
        lemma_skip_spaces_stops(s, pos + 1);
    }
}

/// Up to where a word ends, there are word characters only.
pub proof fn lemma_word_end_chars(s: Seq<char>, pos: int)
    requires
        0 <= pos <= s.len(),
    ensures
        pos <= word_end(s, pos) <= s.len(),
        forall|i: int| pos <= i < word_end(s, pos) ==> is_word_char(#[trigger] s[i]),
    decreases s.len() - pos,
{
    if pos < s.len() && is_word_char(s[pos]) {
        lemma_word_end_chars(s, pos + 1);
    }
}

/// Up to where a string ends, there is no double quote.
pub proof fn lemma_quote_at_chars(s: Seq<char>, pos: int)
    requires
        0 <= pos <= s.len(),
    ensures
        pos <= quote_at(s, pos) <= s.len(),
        forall|i: int| pos <= i < quote_at(s, pos) ==> #[trigger] s[i] != '"',
    decreases s.len() - pos,
{
    if pos < s.len() && s[pos] != '"' {
        lemma_quote_at_chars(s, pos + 1);
    }
}

/// A token that the lexer finds is one whose text it reads as the token
/// again.
pub proof fn lemma_lexeme_ok(s: Seq<char>, pos: int)
    requires
        0 <= pos <= s.len(),
    ensures
        lexeme_at(s, pos) matches Lexeme::Token(token, _) ==> token_ok(token),
{
    lemma_skip_spaces_bounds(s, pos);
    lemma_skip_spaces_stops(s, pos);
    let start = skip_spaces(s, pos);
    if start < s.len() {
        lemma_word_end_chars(s, start + 1);
        lemma_quote_at_chars(s, start + 1);
        let end = word_end(s, start + 1);
        let name = s.subrange(start, end);
        assert(name[0] == s[start]);
        assert forall|i: int| 1 <= i < name.len() implies is_word_char(#[trigger] name[i]) by {
            assert(name[i] == s[start + i]);
        }
        let close = quote_at(s, start + 1);
        let contents = s.subrange(start + 1, close);
        assert forall|i: int| 0 <= i < contents.len() implies #[trigger] contents[i] != '"' by {
            assert(contents[i] == s[start + 1 + i]);
        }
    }
}

/// Every token of the token sequence of a text is one whose text the
/// lexer reads as the token again.
pub proof fn lemma_tokens_ok(s: Seq<char>, pos: int)
    requires
        0 <= pos <= s.len(),
    ensures
        tokens_from(s, pos) matches Ok(ts) ==> tokens_ok(ts),
    decreases s.len() - pos,
{
    lemma_lexeme_advances(s, pos);
    lemma_lexeme_ok(s, pos);
    match lexeme_at(s, pos) {
        Lexeme::Token(token, next) => {
            lemma_tokens_ok(s, next);
            match tokens_from(s, next) {
                Ok(rest) => {
                    let ts = seq![token] + rest;
                    assert forall|i: int| 0 <= i < ts.len() implies token_ok(#[trigger] ts[i]) by {
                        if i > 0 {
                            assert(ts[i] == rest[i - 1]);
                        }
                    }
                },
                Err(_) => {},
            }
        },
        _ => {},
    }
}

/// Whether every expression of a list can be written down.
pub open spec fn all_writable(es: Seq<ExpressionView>) -> bool {
    forall|i: int| 0 <= i < es.len() ==> writable(#[trigger] es[i])
}

/// Whether every key and every value of a list of pairs can be written
/// down.
pub open spec fn pairs_writable(pairs: Seq<(ExpressionView, ExpressionView)>) -> bool {
    forall|i: int| 0 <= i < pairs.len() ==> writable((#[trigger] pairs[i]).0) && writable(pairs[i].1)
}

/// Whether every name of a list is read as an identifier.
pub open spec fn names_valid(names: Seq<Seq<char>>) -> bool {
    forall|i: int| 0 <= i < names.len() ==> valid_name(#[trigger] names[i])
}

/// The names that the grammar finds are read as identifiers.
pub proof fn lemma_names_valid(ts: Seq<TokenView>, pos: int)
    requires
        tokens_ok(ts),
        0 <= pos,
    ensures
        names_until(ts, pos) matches Ok((names, _)) ==> names_valid(names),
    decreases ts.len() - pos,
{
    match token_at(ts, pos) {
        TokenView::Identifiere(name) => {
            assert(token_ok(ts[pos]));
            lemma_names_valid(ts, skip(ts, pos + 1, TokenView::Comma));
            match names_until(ts, skip(ts, pos + 1, TokenView::Comma)) {
                Ok((rest, _)) => {
                    let names = seq![name] + rest;
                    assert forall|i: int| 0 <= i < names.len() implies valid_name(
                        #[trigger] names[i],
                    ) by {
                        if i > 0 {
                            assert(names[i] == rest[i - 1]);
                        }
                    }
                },
                Err(_) => {},
            }
        },
        _ => {},
    }
}

/// The expression that the grammar finds can be written down.
pub proof fn lemma_expression_writable(ts: Seq<TokenView>, pos: int, bound: Precedence)
    requires
        tokens_ok(ts),
        0 <= pos,
    ensures
        expression_at(ts, pos, bound) matches Ok((e, _)) ==> writable(e),
    decreases ts.len() - pos, 2nat,
{
    lemma_primary_writable(ts, pos);
    match primary_at(ts, pos) {
        Ok((left, next)) => {
            if pos < next <= ts.len() {
                lemma_operators_writable(ts, next, bound, left);
            }
        },
        Err(_) => {},
    }
}

/// The primary expression that the grammar finds can be written down.
pub proof fn lemma_primary_writable(ts: Seq<TokenView>, pos: int)
    requires
        tokens_ok(ts),
        0 <= pos,
    ensures
        primary_at(ts, pos) matches Ok((e, _)) ==> writable(e),
    decreases ts.len() - pos, 1nat,
{
    if pos < ts.len() {
        assert(token_ok(ts[pos]));
    }
    match token_at(ts, pos) {
        TokenView::Bang => {
            lemma_expression_writable(ts, pos + 1, Precedence::Prefix);
            let found = prefix_at(ts, pos);
        },
        TokenView::Minus => {
            lemma_expression_writable(ts, pos + 1, Precedence::Prefix);
            let found = prefix_at(ts, pos);
        },
        TokenView::LParen => {
            lemma_group_writable(ts, pos);
        },
        TokenView::If => {
            lemma_conditional_writable(ts, pos);
        },
        TokenView::Func => {
            lemma_function_writable(ts, pos);
        },
        TokenView::LBracket => {
            lemma_expressions_writable(ts, pos + 1, TokenView::RBracket);
            let found = array_at(ts, pos);
        },
        TokenView::LBrace => {
            lemma_pairs_writable(ts, pos + 1);
            let found = hash_at(ts, pos);
        },
        _ => {},
    }
}

/// The expression that the grammar finds in parentheses can be written down.
pub proof fn lemma_group_writable(ts: Seq<TokenView>, pos: int)
    requires
        tokens_ok(ts),
        0 <= pos,
    ensures
        group_at(ts, pos) matches Ok((e, _)) ==> writable(e),
    decreases ts.len() - pos, 0nat,
{
    if token_at(ts, pos) == TokenView::LParen {
        lemma_expression_writable(ts, pos + 1, Precedence::Lowest);
    }
}

/// The conditional that the grammar finds can be written down.
pub proof fn lemma_conditional_writable(ts: Seq<TokenView>, pos: int)
    requires
        tokens_ok(ts),
        0 <= pos,
    ensures
        conditional_at(ts, pos) matches Ok((e, _)) ==> writable(e),
    decreases ts.len() - pos, 0nat,
{
    if token_at(ts, pos) == TokenView::If {
        lemma_group_writable(ts, pos + 1);
        match group_at(ts, pos + 1) {
            Ok((condition, after_condition)) => {
                if pos < after_condition <= ts.len() {
                    lemma_block_writable(ts, after_condition);
                    match block_at(ts, after_condition) {
                        Ok((then, after_then)) => {
                            if pos < after_then < ts.len() {
                                lemma_block_writable(ts, after_then + 1);
                                match block_at(ts, after_then + 1) {
                                    Ok((otherwise, _)) => {
                                    },
                                    Err(_) => {},
                                }
                            }
                        },
                        Err(_) => {},
                    }
                }
            },
            Err(_) => {},
        }
    }
}

/// The function literal that the grammar finds can be written down.
pub proof fn lemma_function_writable(ts: Seq<TokenView>, pos: int)
    requires
        tokens_ok(ts),
        0 <= pos,
    ensures
        function_at(ts, pos) matches Ok((e, _)) ==> writable(e),
    decreases ts.len() - pos, 0nat,
{
    if token_at(ts, pos) == TokenView::Func {
        lemma_names_valid(ts, pos + 2);
        match parameters_at(ts, pos + 1) {
            Ok((parameters, after_parameters)) => {
                if pos < after_parameters <= ts.len() {
                    lemma_block_writable(ts, after_parameters);
                    match block_at(ts, after_parameters) {
                        Ok((body, _)) => {
                        },
                        Err(_) => {},
                    }
                }
            },
            Err(_) => {},
        }
    }
}

/// What an expression grows into by the operators after it can be written
/// down, if the expression can.
pub proof fn lemma_operators_writable(
    ts: Seq<TokenView>,
    pos: int,
    bound: Precedence,
    left: ExpressionView,
)
    requires
        tokens_ok(ts),
        0 <= pos <= ts.len(),
        writable(left),
    ensures
        operators_from(ts, pos, bound, left) matches Ok((e, _)) ==> writable(e),
    decreases ts.len() - pos, 3nat,
{
    if rank(precedence_of(token_at(ts, pos))) > rank(bound) {
        lemma_operator_writable(ts, pos, left);
        match operator_at(ts, pos, left) {
            Ok((grown, next)) => {
                if pos < next <= ts.len() {
                    lemma_operators_writable(ts, next, bound, grown);
                }
            },
            Err(_) => {},
        }
    }
}

/// What an expression becomes by one operator, call or subscript can be
/// written down, if the expression can.
pub proof fn lemma_operator_writable(ts: Seq<TokenView>, pos: int, left: ExpressionView)
    requires
        tokens_ok(ts),
        0 <= pos,
        writable(left),
    ensures
        operator_at(ts, pos, left) matches Ok((e, _)) ==> writable(e),
    decreases ts.len() - pos, 2nat,
{
    match token_at(ts, pos) {
        TokenView::LParen => {
            lemma_expressions_writable(ts, pos + 1, TokenView::RParen);
            let call = call_at(ts, pos, left);
            let arguments = arguments_at(ts, pos);
        },
        TokenView::LBracket => {
            lemma_expression_writable(ts, pos + 1, Precedence::Lowest);
            let subscript = subscript_at(ts, pos, left);
        },
        token => {
            if infix_of(token) is Some {
                lemma_expression_writable(ts, pos + 1, precedence_of(token));
            }
        },
    }
}

/// Every expression of a list that the grammar finds can be written down.
pub proof fn lemma_expressions_writable(ts: Seq<TokenView>, pos: int, close: TokenView)
    requires
        tokens_ok(ts),
        0 <= pos,
    ensures
        expressions_until(ts, pos, close) matches Ok((es, _)) ==> all_writable(es),
    decreases ts.len() - pos, 3nat,
{
    if token_at(ts, pos) != close {
        lemma_expression_writable(ts, pos, Precedence::Lowest);
        match expression_at(ts, pos, Precedence::Lowest) {
            Ok((first, next)) => {
                if pos < next <= ts.len() {
                    let after = skip(ts, next, TokenView::Comma);
                    lemma_expressions_writable(ts, after, close);
                    match expressions_until(ts, after, close) {
                        Ok((rest, _)) => {
                            let es = seq![first] + rest;
                            assert forall|i: int| 0 <= i < es.len() implies writable(
                                #[trigger] es[i],
                            ) by {
                                if i > 0 {
                                    assert(es[i] == rest[i - 1]);
                                }
                            }
                        },
                        Err(_) => {},
                    }
                }
            },
            Err(_) => {},
        }
    }
}

/// The key and the value of a pair that the grammar finds can be written down.
pub proof fn lemma_pair_writable(ts: Seq<TokenView>, pos: int)
    requires
        tokens_ok(ts),
        0 <= pos,
    ensures
        pair_at(ts, pos) matches Ok((pair, _)) ==> writable(pair.0) && writable(pair.1),
    decreases ts.len() - pos, 3nat,
{
    lemma_expression_writable(ts, pos, Precedence::Lowest);
    match expression_at(ts, pos, Precedence::Lowest) {
        Ok((key, colon)) => {
            if token_at(ts, colon) == TokenView::Colon && pos < colon < ts.len() {
                lemma_expression_writable(ts, colon + 1, Precedence::Lowest);
            }
        },
        Err(_) => {},
    }
}

/// Every pair of a hash literal that the grammar finds can be written down.
pub proof fn lemma_pairs_writable(ts: Seq<TokenView>, pos: int)
    requires
        tokens_ok(ts),
        0 <= pos,
    ensures
        pairs_until(ts, pos) matches Ok((pairs, _)) ==> pairs_writable(pairs),
    decreases ts.len() - pos, 4nat,
{
    if token_at(ts, pos) != TokenView::RBrace {
        lemma_pair_writable(ts, pos);
        match pair_at(ts, pos) {
            Ok((first, next)) => {
                if pos < next <= ts.len() {
                    let after = skip(ts, next, TokenView::Comma);
                    lemma_pairs_writable(ts, after);
                    match pairs_until(ts, after) {
                        Ok((rest, _)) => {
                            let pairs = seq![first] + rest;
                            assert forall|i: int| 0 <= i < pairs.len() implies writable(
                                (#[trigger] pairs[i]).0,
                            ) && writable(pairs[i].1) by {
                                if i > 0 {
                                    assert(pairs[i] == rest[i - 1]);
                                }
                            }
                        },
                        Err(_) => {},
                    }
                }
            },
            Err(_) => {},
        }
    }
}

/// The statement that the grammar finds can be written down.
pub proof fn lemma_statement_writable(ts: Seq<TokenView>, pos: int)
    requires
        tokens_ok(ts),
        0 <= pos,
    ensures
        statement_at(ts, pos) matches Ok((s, _)) ==> statement_writable(s),
    decreases ts.len() - pos, 4nat,
{
    match token_at(ts, pos) {
        TokenView::Let => {
            let found = let_at(ts, pos);
            if pos + 2 < ts.len() {
                assert(token_ok(ts[pos + 1]));
                lemma_expression_writable(ts, pos + 3, Precedence::Lowest);
            }
        },
        TokenView::Ret => {
            let found = return_at(ts, pos);
            lemma_expression_writable(ts, pos + 1, Precedence::Lowest);
        },
        _ => {
            let found = expression_statement_at(ts, pos);
            lemma_expression_writable(ts, pos, Precedence::Lowest);
        },
    }
}

/// Every statement of a block that the grammar finds can be written down.
pub proof fn lemma_statements_writable(ts: Seq<TokenView>, pos: int)
    requires
        tokens_ok(ts),
        0 <= pos,
    ensures
        statements_until_brace(ts, pos) matches Ok((stmts, _)) ==> statements_writable(stmts),
    decreases ts.len() - pos, 5nat,
{
    match token_at(ts, pos) {
        TokenView::RBrace => {},
        TokenView::Eof => {},
        _ => {
            lemma_statement_writable(ts, pos);
            match statement_at(ts, pos) {
                Ok((first, next)) => {
                    if pos < next <= ts.len() {
                        lemma_statements_writable(ts, next);
                        match statements_until_brace(ts, next) {
                            Ok((rest, _)) => {
                                let stmts = seq![first] + rest;
                                assert forall|i: int|
                                    0 <= i < stmts.len() implies statement_writable(
                                    #[trigger] stmts[i],
                                ) by {
                                    if i > 0 {
                                        assert(stmts[i] == rest[i - 1]);
                                    }
                                }
                            },
                            Err(_) => {},
                        }
                    }
                },
                Err(_) => {},
            }
        },
    }
}

/// Every statement of the block that the grammar finds can be written down.
pub proof fn lemma_block_writable(ts: Seq<TokenView>, pos: int)
    requires
        tokens_ok(ts),
        0 <= pos,
    ensures
        block_at(ts, pos) matches Ok((stmts, _)) ==> statements_writable(stmts),
    decreases ts.len() - pos, 6nat,
{
    if token_at(ts, pos) == TokenView::LBrace {
        lemma_statements_writable(ts, pos + 1);
    }
}

/// Every statement of the program that the grammar finds can be written down.
pub proof fn lemma_program_writable(ts: Seq<TokenView>, pos: int)
    requires
        tokens_ok(ts),
        0 <= pos,
    ensures
        statements_to_end(ts, pos) matches Ok((stmts, _)) ==> statements_writable(stmts),
    decreases ts.len() - pos, 5nat,
{
    if token_at(ts, pos) != TokenView::Eof {
        lemma_statement_writable(ts, pos);
        match statement_at(ts, pos) {
            Ok((first, next)) => {
                if pos < next <= ts.len() {
                    lemma_program_writable(ts, next);
                    match statements_to_end(ts, next) {
                        Ok((rest, _)) => {
                            let stmts = seq![first] + rest;
                            assert forall|i: int| 0 <= i < stmts.len() implies statement_writable(
                                #[trigger] stmts[i],
                            ) by {
                                if i > 0 {
                                    assert(stmts[i] == rest[i - 1]);
                                }
                            }
                        },
                        Err(_) => {},
                    }
                }
            },
            Err(_) => {},
        }
    }
}

} // verus!
