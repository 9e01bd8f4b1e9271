//! Reading back what was written, first half: the lexer finds in the text
//! of a tree the tokens of the tree.

use crate::ast::{
    block_text, expression_text, expressions_text, infix_text, names_text, otherwise_text,
    pairs_text, prefix_text, statement_text, statements_text, ExpressionView, Infix, Prefix,
    StatementView,
};
use crate::lexer::{punctuation, TokenView};
use crate::spelling::{
    breaks, lemma_assign_then, lemma_infix_lexes, lemma_integer_lexes, lemma_keywords,
    lemma_mark_last, lemma_mark_then, lemma_marks, lemma_nothing_lexes, lemma_numeral_digits,
    lemma_part_then, lemma_prefix_lexes, lemma_space_then, lemma_string_lexes, lemma_word_lexes,
    lemma_word_then, lexes,
};
use crate::writing::{
    block_tokens, expression_tokens, expressions_tokens, holds, infix_token, lemma_holds_index,
    lemma_holds_split, lemma_holds_within, names_tokens, otherwise_tokens, pairs_tokens,
    prefix_token, program_tokens, statement_tokens, statement_writable, statements_tokens,
    statements_writable, valid_name, writable,
};
use vstd::prelude::*;

verus! {

/// Whether the text of `e` at `pos` is read as the tokens of `e`.
pub open spec fn spells(e: ExpressionView, s: Seq<char>, pos: int) -> bool {
    lexes(s, pos, expression_text(e).len() as int, expression_tokens(e))
}

/// The names of a parameter list and the closing parenthesis after them are
/// read as their tokens.
pub proof fn lemma_names_spell(names: Seq<Seq<char>>, from: int, s: Seq<char>, pos: int)
    requires
        0 <= from <= names.len(),
        forall|i: int| 0 <= i < names.len() ==> valid_name(#[trigger] names[i]),
        holds(s, pos, names_text(names, from) + ")"@),
    ensures
        lexes(
            s,
            pos,
            (names_text(names, from) + ")"@).len() as int,
            names_tokens(names, from),
        ),
    decreases names.len() - from,
{
    lemma_marks();
    let close = ")"@;
    if from == names.len() {
        assert(names_text(names, from) + close =~= close);
        lemma_mark_last(s, pos, close, ')', TokenView::RParen);
    } else if from == names.len() - 1 {
        let name = names[from];
        lemma_holds_split(s, pos, name, close);
        lemma_mark_last(s, pos + name.len(), close, ')', TokenView::RParen);
        lemma_word_then(s, pos, name, close, seq![TokenView::RParen]);
    } else {
        let name = names[from];
        let rest = names_text(names, from + 1) + close;
        let comma = ","@;
        assert(names_text(names, from) + close =~= name + (comma + rest));
        lemma_holds_split(s, pos, name, comma + rest);
        lemma_holds_split(s, pos + name.len(), comma, rest);
        lemma_names_spell(names, from + 1, s, pos + name.len() + 1);
        lemma_mark_then(
            s,
            pos + name.len(),
            comma,
            rest,
            ',',
            TokenView::Comma,
            names_tokens(names, from + 1),
        );
        lemma_word_then(
            s,
            pos,
            name,
            comma + rest,
            seq![TokenView::Comma] + names_tokens(names, from + 1),
        );
    }
}

/// A conditional is read as its tokens.
proof fn lemma_conditional_spells(
    condition: ExpressionView,
    then: Seq<StatementView>,
    otherwise: Option<Seq<StatementView>>,
    s: Seq<char>,
    pos: int,
)
    requires
        writable(ExpressionView::If(Box::new(condition), then, otherwise)),
        holds(s, pos, expression_text(ExpressionView::If(Box::new(condition), then, otherwise))),
    ensures
        spells(ExpressionView::If(Box::new(condition), then, otherwise), s, pos),
    decreases ExpressionView::If(Box::new(condition), then, otherwise), 0nat,
{
    let e = ExpressionView::If(Box::new(condition), then, otherwise);
    assert(*e->If_0 == condition && e->If_1 == then && e->If_2 == otherwise);
    lemma_marks();
    lemma_keywords();
    let tc = expression_text(condition);
    let tb = block_text(then);
    let to = otherwise_text(otherwise);
    let kc = expression_tokens(condition);
    let kb = block_tokens(then);
    let ko = otherwise_tokens(otherwise);
    let r6 = tb + to;
    let r5 = " "@ + r6;
    let r4 = ")"@ + r5;
    let r3 = tc + r4;
    let r2 = "("@ + r3;
    let r1 = " "@ + r2;
    let at1 = pos + 2;
    let at2 = at1 + 1;
    let at3 = at2 + 1;
    let at4 = at3 + tc.len();
    let at5 = at4 + 1;
    let at6 = at5 + 1;
    let at7 = at6 + tb.len();
    lemma_holds_split(s, pos, "if"@, r1);
    lemma_holds_split(s, at1, " "@, r2);
    lemma_holds_split(s, at2, "("@, r3);
    lemma_holds_split(s, at3, tc, r4);
    lemma_holds_split(s, at4, ")"@, r5);
    lemma_holds_split(s, at5, " "@, r6);
    lemma_holds_split(s, at6, tb, to);
    lemma_holds_index(s, at4, r4, 0);
    assert(lexes(s, at7, to.len() as int, ko)) by {
        lemma_otherwise_spells(otherwise, s, at7);
    }
    assert(lexes(s, at6, tb.len() as int, kb)) by {
        lemma_block_spells(then, s, at6);
    }
    lemma_part_then(s, at6, tb, to, kb, ko);
    lemma_space_then(s, at5, " "@, r6, kb + ko);
    lemma_mark_then(s, at4, ")"@, r5, ')', TokenView::RParen, kb + ko);
    assert(lexes(s, at3, tc.len() as int, kc)) by {
        lemma_expression_spells(condition, s, at3);
    }
    lemma_part_then(s, at3, tc, r4, kc, seq![TokenView::RParen] + (kb + ko));
    lemma_mark_then(
        s,
        at2,
        "("@,
        r3,
        '(',
        TokenView::LParen,
        kc + (seq![TokenView::RParen] + (kb + ko)),
    );
    lemma_space_then(
        s,
        at1,
        " "@,
        r2,
        seq![TokenView::LParen] + (kc + (seq![TokenView::RParen] + (kb + ko))),
    );
    lemma_word_then(
        s,
        pos,
        "if"@,
        r1,
        seq![TokenView::LParen] + (kc + (seq![TokenView::RParen] + (kb + ko))),
    );
}

/// The second branch of a conditional is read as its tokens.
proof fn lemma_otherwise_spells(otherwise: Option<Seq<StatementView>>, s: Seq<char>, pos: int)
    requires
        match otherwise {
            Some(block) => statements_writable(block),
            None => true,
        },
        holds(s, pos, otherwise_text(otherwise)),
    ensures
        lexes(s, pos, otherwise_text(otherwise).len() as int, otherwise_tokens(otherwise)),
    decreases otherwise, 1nat,
{
    lemma_marks();
    lemma_keywords();
    lemma_holds_within(s, pos, otherwise_text(otherwise));
    match otherwise {
        Some(block) => {
            let tb = block_text(block);
            let kb = block_tokens(block);
            let r2 = " "@ + tb;
            let r1 = "else"@ + r2;
            lemma_holds_split(s, pos, " "@, r1);
            lemma_holds_split(s, pos + 1, "else"@, r2);
            lemma_holds_split(s, pos + 5, " "@, tb);
            assert(lexes(s, pos + 6, tb.len() as int, kb)) by {
                lemma_block_spells(block, s, pos + 6);
            }
            lemma_space_then(s, pos + 5, " "@, tb, kb);
            lemma_word_then(s, pos + 1, "else"@, r2, kb);
            lemma_space_then(s, pos, " "@, r1, seq![TokenView::Else] + kb);
        },
        None => {
            lemma_nothing_lexes(s, pos);
        },
    }
}

/// A function literal is read as its tokens.
proof fn lemma_function_spells(
    parameters: Seq<Seq<char>>,
    body: Seq<StatementView>,
    s: Seq<char>,
    pos: int,
)
    requires
        writable(ExpressionView::FunctionLiteral(parameters, body)),
        holds(s, pos, expression_text(ExpressionView::FunctionLiteral(parameters, body))),
    ensures
        spells(ExpressionView::FunctionLiteral(parameters, body), s, pos),
    decreases ExpressionView::FunctionLiteral(parameters, body), 0nat,
{
    let e = ExpressionView::FunctionLiteral(parameters, body);
    assert(e->FunctionLiteral_0 == parameters && e->FunctionLiteral_1 == body);
    lemma_marks();
    lemma_keywords();
    let tn = names_text(parameters, 0);
    let tb = block_text(body);
    let kn = names_tokens(parameters, 0);
    let kb = block_tokens(body);
    let r3 = ")"@ + tb;
    let r2 = tn + r3;
    let r1 = "("@ + r2;
    let at1 = pos + 2;
    let at2 = at1 + 1;
    let at3 = at2 + tn.len();
    let at4 = at3 + 1;
    lemma_holds_split(s, pos, "fn"@, r1);
    lemma_holds_split(s, at1, "("@, r2);
    lemma_holds_split(s, at2, tn, r3);
    lemma_holds_split(s, at3, ")"@, tb);
    lemma_holds_split(s, at2, tn, ")"@);
    assert(lexes(s, at4, tb.len() as int, kb)) by {
        lemma_block_spells(body, s, at4);
    }
    lemma_names_spell(parameters, 0, s, at2);
    lemma_part_then(s, at2, tn + ")"@, tb, kn, kb);
    assert((tn + ")"@) + tb =~= r2);
    lemma_mark_then(s, at1, "("@, r2, '(', TokenView::LParen, kn + kb);
    lemma_word_then(s, pos, "fn"@, r1, seq![TokenView::LParen] + (kn + kb));
}

/// A hash literal is read as its tokens.
proof fn lemma_hash_spells(pairs: Seq<(ExpressionView, ExpressionView)>, s: Seq<char>, pos: int)
    requires
        writable(ExpressionView::HashMapLiteral(pairs)),
        holds(s, pos, expression_text(ExpressionView::HashMapLiteral(pairs))),
    ensures
        spells(ExpressionView::HashMapLiteral(pairs), s, pos),
    decreases ExpressionView::HashMapLiteral(pairs), 0nat,
{
    let e = ExpressionView::HashMapLiteral(pairs);
    assert(e->HashMapLiteral_0 == pairs);
    lemma_marks();
    let list = pairs_text(pairs, 0) + "}"@;
    lemma_holds_split(s, pos, "{"@, list);
    lemma_pairs_spell(pairs, 0, s, pos + 1);
    lemma_mark_then(s, pos, "{"@, list, '{', TokenView::LBrace, pairs_tokens(pairs, 0));
}

/// An array literal is read as its tokens.
proof fn lemma_array_spells(members: Seq<ExpressionView>, s: Seq<char>, pos: int)
    requires
        writable(ExpressionView::ArrayLiteral(members)),
        holds(s, pos, expression_text(ExpressionView::ArrayLiteral(members))),
    ensures
        spells(ExpressionView::ArrayLiteral(members), s, pos),
    decreases ExpressionView::ArrayLiteral(members), 0nat,
{
    let e = ExpressionView::ArrayLiteral(members);
    assert(e->ArrayLiteral_0 == members);
    lemma_marks();
    let list = expressions_text(members, 0) + "]"@;
    lemma_holds_split(s, pos, "["@, list);
    lemma_expressions_spell(members, 0, s, pos + 1, "]"@, ']', TokenView::RBracket);
    lemma_mark_then(
        s,
        pos,
        "["@,
        list,
        '[',
        TokenView::LBracket,
        expressions_tokens(members, 0, TokenView::RBracket),
    );
}

/// A subscript is read as its tokens.
proof fn lemma_subscript_spells(
    container: ExpressionView,
    index: ExpressionView,
    s: Seq<char>,
    pos: int,
)
    requires
        writable(ExpressionView::Index(Box::new(container), Box::new(index))),
        holds(
            s,
            pos,
            expression_text(ExpressionView::Index(Box::new(container), Box::new(index))),
        ),
    ensures
        spells(ExpressionView::Index(Box::new(container), Box::new(index)), s, pos),
    decreases ExpressionView::Index(Box::new(container), Box::new(index)), 0nat,
{
    let e = ExpressionView::Index(Box::new(container), Box::new(index));
    assert(*e->Index_0 == container && *e->Index_1 == index);
    lemma_marks();
    let tc = expression_text(container);
    let ti = expression_text(index);
    let kc = expression_tokens(container);
    let ki = expression_tokens(index);
    let r2 = ti + "]"@;
    let r1 = "["@ + r2;
    let at1 = pos + tc.len();
    let at2 = at1 + 1;
    let at3 = at2 + ti.len();
    lemma_holds_split(s, pos, tc, r1);
    lemma_holds_split(s, at1, "["@, r2);
    lemma_holds_split(s, at2, ti, "]"@);
    lemma_holds_index(s, at1, r1, 0);
    lemma_holds_index(s, at3, "]"@, 0);
    lemma_mark_last(s, at3, "]"@, ']', TokenView::RBracket);
    assert(lexes(s, at2, ti.len() as int, ki)) by {
        lemma_expression_spells(index, s, at2);
    }
    lemma_part_then(s, at2, ti, "]"@, ki, seq![TokenView::RBracket]);
    lemma_mark_then(
        s,
        at1,
        "["@,
        r2,
        '[',
        TokenView::LBracket,
        ki + seq![TokenView::RBracket],
    );
    assert(lexes(s, pos, tc.len() as int, kc)) by {
        lemma_expression_spells(container, s, pos);
    }
    lemma_part_then(
        s,
        pos,
        tc,
        r1,
        kc,
        seq![TokenView::LBracket] + (ki + seq![TokenView::RBracket]),
    );
}

/// A call is read as its tokens.
proof fn lemma_call_spells(
    callee: ExpressionView,
    arguments: Seq<ExpressionView>,
    s: Seq<char>,
    pos: int,
)
    requires
        writable(ExpressionView::Call(Box::new(callee), arguments)),
        holds(s, pos, expression_text(ExpressionView::Call(Box::new(callee), arguments))),
    ensures
        spells(ExpressionView::Call(Box::new(callee), arguments), s, pos),
    decreases ExpressionView::Call(Box::new(callee), arguments), 0nat,
{
    let e = ExpressionView::Call(Box::new(callee), arguments);
    assert(*e->Call_0 == callee && e->Call_1 == arguments);
    lemma_marks();
    let tc = expression_text(callee);
    let kc = expression_tokens(callee);
    let list = expressions_text(arguments, 0) + ")"@;
    let kl = expressions_tokens(arguments, 0, TokenView::RParen);
    let r1 = "("@ + list;
    let at1 = pos + tc.len();
    lemma_holds_split(s, pos, tc, r1);
    lemma_holds_split(s, at1, "("@, list);
    lemma_holds_index(s, at1, r1, 0);
    lemma_expressions_spell(arguments, 0, s, at1 + 1, ")"@, ')', TokenView::RParen);
    lemma_mark_then(s, at1, "("@, list, '(', TokenView::LParen, kl);
    assert(lexes(s, pos, tc.len() as int, kc)) by {
        lemma_expression_spells(callee, s, pos);
    }
    lemma_part_then(s, pos, tc, r1, kc, seq![TokenView::LParen] + kl);
}

/// The text of an expression that can be written down has a first
/// character, and that is no equals sign.
pub proof fn lemma_text_starts(e: ExpressionView)
    requires
        writable(e),
    ensures
        expression_text(e).len() > 0,
        expression_text(e)[0] != '=',
    decreases e,
{
    lemma_marks();
    lemma_keywords();
    reveal_strlit("\"");
    match e {
        ExpressionView::IntegerLiteral(i) => {
            lemma_numeral_digits(i as nat);
        },
        ExpressionView::Index(container, _) => {
            lemma_text_starts(*container);
        },
        ExpressionView::Call(callee, _) => {
            lemma_text_starts(*callee);
        },
        _ => {},
    }
}

/// A prefix expression is read as its tokens.
proof fn lemma_prefix_spells(op: Prefix, operand: ExpressionView, s: Seq<char>, pos: int)
    requires
        writable(ExpressionView::Prefix(op, Box::new(operand))),
        holds(s, pos, expression_text(ExpressionView::Prefix(op, Box::new(operand)))),
    ensures
        spells(ExpressionView::Prefix(op, Box::new(operand)), s, pos),
    decreases ExpressionView::Prefix(op, Box::new(operand)), 0nat,
{
    let e = ExpressionView::Prefix(op, Box::new(operand));
    assert(*e->Prefix_1 == operand);
    lemma_marks();
    lemma_text_starts(operand);
    let sign = prefix_text(op);
    let tx = expression_text(operand);
    let kx = expression_tokens(operand);
    let rest2 = tx + ")"@;
    let rest1 = sign + rest2;
    let at1 = pos + 1;
    lemma_holds_split(s, pos, "("@, rest1);
    lemma_holds_split(s, at1, sign, rest2);
    reveal_strlit("-");
    reveal_strlit("!");
    let at2 = at1 + 1;
    let at3 = at2 + tx.len();
    lemma_holds_split(s, at2, tx, ")"@);
    lemma_holds_index(s, at2, tx, 0);
    lemma_holds_index(s, at3, ")"@, 0);
    lemma_mark_last(s, at3, ")"@, ')', TokenView::RParen);
    assert(lexes(s, at2, tx.len() as int, kx)) by {
        lemma_expression_spells(operand, s, at2);
    }
    lemma_part_then(s, at2, tx, ")"@, kx, seq![TokenView::RParen]);
    lemma_prefix_lexes(s, at1, op);
    lemma_part_then(s, at1, sign, rest2, seq![prefix_token(op)], kx + seq![TokenView::RParen]);
    lemma_mark_then(
        s,
        pos,
        "("@,
        rest1,
        '(',
        TokenView::LParen,
        seq![prefix_token(op)] + (kx + seq![TokenView::RParen]),
    );
}

/// An infix expression is read as its tokens.
proof fn lemma_infix_spells(
    op: Infix,
    left: ExpressionView,
    right: ExpressionView,
    s: Seq<char>,
    pos: int,
)
    requires
        writable(ExpressionView::Infix(op, Box::new(left), Box::new(right))),
        holds(
            s,
            pos,
            expression_text(ExpressionView::Infix(op, Box::new(left), Box::new(right))),
        ),
    ensures
        spells(ExpressionView::Infix(op, Box::new(left), Box::new(right)), s, pos),
    decreases ExpressionView::Infix(op, Box::new(left), Box::new(right)), 0nat,
{
    let e = ExpressionView::Infix(op, Box::new(left), Box::new(right));
    assert(*e->Infix_1 == left && *e->Infix_2 == right);
    lemma_marks();
    let sign = infix_text(op);
    let tl = expression_text(left);
    let tr = expression_text(right);
    let kl = expression_tokens(left);
    let kr = expression_tokens(right);
    let rest5 = tr + ")"@;
    let rest4 = " "@ + rest5;
    let rest3 = sign + rest4;
    let rest2 = " "@ + rest3;
    let rest1 = tl + rest2;
    let at1 = pos + 1;
    let at2 = at1 + tl.len();
    let at3 = at2 + 1;
    let at4 = at3 + sign.len();
    let at5 = at4 + 1;
    let at6 = at5 + tr.len();
    lemma_holds_split(s, pos, "("@, rest1);
    lemma_holds_split(s, at1, tl, rest2);
    lemma_holds_split(s, at2, " "@, rest3);
    lemma_holds_split(s, at3, sign, rest4);
    lemma_holds_split(s, at4, " "@, rest5);
    lemma_holds_split(s, at5, tr, ")"@);
    lemma_holds_index(s, at2, " "@, 0);
    lemma_holds_index(s, at6, ")"@, 0);
    lemma_mark_last(s, at6, ")"@, ')', TokenView::RParen);
    assert(lexes(s, at5, tr.len() as int, kr)) by {
        lemma_expression_spells(right, s, at5);
    }
    let tokens5 = kr + seq![TokenView::RParen];
    lemma_part_then(s, at5, tr, ")"@, kr, seq![TokenView::RParen]);
    lemma_space_then(s, at4, " "@, rest5, tokens5);
    lemma_infix_lexes(s, at3, op);
    lemma_part_then(s, at3, sign, rest4, seq![infix_token(op)], tokens5);
    lemma_space_then(s, at2, " "@, rest3, seq![infix_token(op)] + tokens5);
    assert(lexes(s, at1, tl.len() as int, kl)) by {
        lemma_expression_spells(left, s, at1);
    }
    lemma_part_then(s, at1, tl, rest2, kl, seq![infix_token(op)] + tokens5);
    lemma_mark_then(
        s,
        pos,
        "("@,
        rest1,
        '(',
        TokenView::LParen,
        kl + (seq![infix_token(op)] + tokens5),
    );
}

/// An expression that can be written down is read as its tokens, where
/// what follows its text continues no word.
pub proof fn lemma_expression_spells(e: ExpressionView, s: Seq<char>, pos: int)
    requires
        writable(e),
        holds(s, pos, expression_text(e)),
        breaks(s, pos + expression_text(e).len()),
    ensures
        spells(e, s, pos),
    decreases e, 1nat,
{
    match e {
        ExpressionView::Identifier(name) => {
            lemma_word_lexes(s, pos, name);
        },
        ExpressionView::IntegerLiteral(i) => {
            lemma_integer_lexes(s, pos, i);
        },
        ExpressionView::String(contents) => {
            lemma_string_lexes(s, pos, contents);
        },
        ExpressionView::Bool(b) => {
            lemma_keywords();
            if b {
                lemma_word_lexes(s, pos, "true"@);
            } else {
                lemma_word_lexes(s, pos, "false"@);
            }
        },
        ExpressionView::Prefix(op, operand) => {
            lemma_prefix_spells(op, *operand, s, pos);
        },
        ExpressionView::Infix(op, left, right) => {
            lemma_infix_spells(op, *left, *right, s, pos);
        },
        ExpressionView::If(condition, then, otherwise) => {
            lemma_conditional_spells(*condition, then, otherwise, s, pos);
        },
        ExpressionView::FunctionLiteral(parameters, body) => {
            lemma_function_spells(parameters, body, s, pos);
        },
        ExpressionView::HashMapLiteral(pairs) => {
            lemma_hash_spells(pairs, s, pos);
        },
        ExpressionView::ArrayLiteral(members) => {
            lemma_array_spells(members, s, pos);
        },
        ExpressionView::Index(container, index) => {
            lemma_subscript_spells(*container, *index, s, pos);
        },
        ExpressionView::Call(callee, arguments) => {
            lemma_call_spells(*callee, arguments, s, pos);
        },
    }
}

/// The expressions of a list and the closing mark after them are read as
/// their tokens.
pub proof fn lemma_expressions_spell(
    es: Seq<ExpressionView>,
    from: int,
    s: Seq<char>,
    pos: int,
    closer: Seq<char>,
    c: char,
    close: TokenView,
)
    requires
        0 <= from <= es.len(),
        forall|i: int| 0 <= i < es.len() ==> writable(#[trigger] es[i]),
        closer.len() == 1,
        closer[0] == c,
        punctuation(c) == Some(close),
        holds(s, pos, expressions_text(es, from) + closer),
    ensures
        lexes(
            s,
            pos,
            (expressions_text(es, from) + closer).len() as int,
            expressions_tokens(es, from, close),
        ),
    decreases es, es.len() - from,
{
    lemma_marks();
    if from == es.len() {
        assert(expressions_text(es, from) + closer =~= closer);
        lemma_mark_last(s, pos, closer, c, close);
    } else {
        let first = expression_text(es[from]);
        let tokens = expression_tokens(es[from]);
        let after = pos + first.len();
        if from == es.len() - 1 {
            lemma_holds_split(s, pos, first, closer);
            lemma_holds_index(s, after, closer, 0);
            lemma_mark_last(s, after, closer, c, close);
            assert(lexes(s, pos, first.len() as int, tokens)) by {
                lemma_expression_spells(es[from], s, pos);
            }
            lemma_part_then(s, pos, first, closer, tokens, seq![close]);
        } else {
            let rest = expressions_text(es, from + 1) + closer;
            let comma = ","@;
            assert(expressions_text(es, from) + closer =~= first + (comma + rest));
            lemma_holds_split(s, pos, first, comma + rest);
            lemma_holds_split(s, after, comma, rest);
            lemma_holds_index(s, after, comma + rest, 0);
            lemma_expressions_spell(es, from + 1, s, after + 1, closer, c, close);
            lemma_mark_then(
                s,
                after,
                comma,
                rest,
                ',',
                TokenView::Comma,
                expressions_tokens(es, from + 1, close),
            );
            assert(lexes(s, pos, first.len() as int, tokens)) by {
                lemma_expression_spells(es[from], s, pos);
            }
            lemma_part_then(
                s,
                pos,
                first,
                comma + rest,
                tokens,
                seq![TokenView::Comma] + expressions_tokens(es, from + 1, close),
            );
        }
    }
}

/// The pairs of a hash literal and the closing brace after them are read as
/// their tokens.
pub proof fn lemma_pairs_spell(
    pairs: Seq<(ExpressionView, ExpressionView)>,
    from: int,
    s: Seq<char>,
    pos: int,
)
    requires
        0 <= from <= pairs.len(),
        forall|i: int|
            0 <= i < pairs.len() ==> writable((#[trigger] pairs[i]).0) && writable(pairs[i].1),
        holds(s, pos, pairs_text(pairs, from) + "}"@),
    ensures
        lexes(
            s,
            pos,
            (pairs_text(pairs, from) + "}"@).len() as int,
            pairs_tokens(pairs, from),
        ),
    decreases pairs, pairs.len() - from,
{
    lemma_marks();
    let closer = "}"@;
    if from == pairs.len() {
        assert(pairs_text(pairs, from) + closer =~= closer);
        lemma_mark_last(s, pos, closer, '}', TokenView::RBrace);
    } else {
        let pair = pairs[from];
        let tk = expression_text(pair.0);
        let tv = expression_text(pair.1);
        let kk = expression_tokens(pair.0);
        let kv = expression_tokens(pair.1);
        let last = from == pairs.len() - 1;
        let follow = if last {
            closer
        } else {
            ","@ + (pairs_text(pairs, from + 1) + closer)
        };
        let follow_tokens = if last {
            seq![TokenView::RBrace]
        } else {
            seq![TokenView::Comma] + pairs_tokens(pairs, from + 1)
        };
        let r2 = tv + follow;
        let r1 = ":"@ + r2;
        let at1 = pos + tk.len();
        let at2 = at1 + 1;
        let at3 = at2 + tv.len();
        assert(pairs_text(pairs, from) + closer =~= tk + r1);
        lemma_holds_split(s, pos, tk, r1);
        lemma_holds_split(s, at1, ":"@, r2);
        lemma_holds_split(s, at2, tv, follow);
        lemma_holds_index(s, at1, r1, 0);
        lemma_holds_index(s, at3, follow, 0);
        if last {
            lemma_mark_last(s, at3, closer, '}', TokenView::RBrace);
        } else {
            let rest = pairs_text(pairs, from + 1) + closer;
            lemma_holds_split(s, at3, ","@, rest);
            lemma_pairs_spell(pairs, from + 1, s, at3 + 1);
            lemma_mark_then(
                s,
                at3,
                ","@,
                rest,
                ',',
                TokenView::Comma,
                pairs_tokens(pairs, from + 1),
            );
        }
        assert(lexes(s, at2, tv.len() as int, kv)) by {
            lemma_expression_spells(pair.1, s, at2);
        }
        lemma_part_then(s, at2, tv, follow, kv, follow_tokens);
        lemma_mark_then(s, at1, ":"@, r2, ':', TokenView::Colon, kv + follow_tokens);
        assert(lexes(s, pos, tk.len() as int, kk)) by {
            lemma_expression_spells(pair.0, s, pos);
        }
        lemma_part_then(s, pos, tk, r1, kk, seq![TokenView::Colon] + (kv + follow_tokens));
    }
}

/// A `let` statement is read as its tokens.
proof fn lemma_let_spells(name: Seq<char>, value: ExpressionView, s: Seq<char>, pos: int)
    requires
        valid_name(name),
        writable(value),
        holds(s, pos, statement_text(StatementView::Let(name, value))),
    ensures
        lexes(
            s,
            pos,
            statement_text(StatementView::Let(name, value)).len() as int,
            statement_tokens(StatementView::Let(name, value)),
        ),
    decreases value, 3nat,
{
    lemma_marks();
    lemma_keywords();
    let tv = expression_text(value);
    let kv = expression_tokens(value);
    let r7 = tv + ";"@;
    let r6 = " "@ + r7;
    let r5 = "="@ + r6;
    let r4 = " "@ + r5;
    let r3 = name + r4;
    let r2 = " "@ + r3;
    let at1 = pos + 3;
    let at2 = at1 + 1;
    let at3 = at2 + name.len();
    let at4 = at3 + 1;
    let at5 = at4 + 1;
    let at6 = at5 + 1;
    let at7 = at6 + tv.len();
    lemma_holds_split(s, pos, "let"@, r2);
    lemma_holds_split(s, at1, " "@, r3);
    lemma_holds_split(s, at2, name, r4);
    lemma_holds_split(s, at3, " "@, r5);
    lemma_holds_split(s, at4, "="@, r6);
    lemma_holds_split(s, at5, " "@, r7);
    lemma_holds_split(s, at6, tv, ";"@);
    lemma_holds_index(s, at7, ";"@, 0);
    lemma_mark_last(s, at7, ";"@, ';', TokenView::Semicolon);
    assert(lexes(s, at6, tv.len() as int, kv)) by {
        lemma_expression_spells(value, s, at6);
    }
    let k7 = kv + seq![TokenView::Semicolon];
    lemma_part_then(s, at6, tv, ";"@, kv, seq![TokenView::Semicolon]);
    lemma_space_then(s, at5, " "@, r7, k7);
    lemma_assign_then(s, at4, "="@, r6, k7);
    lemma_space_then(s, at3, " "@, r5, seq![TokenView::Assign] + k7);
    lemma_word_then(s, at2, name, r4, seq![TokenView::Assign] + k7);
    lemma_space_then(
        s,
        at1,
        " "@,
        r3,
        seq![TokenView::Identifiere(name)] + (seq![TokenView::Assign] + k7),
    );
    lemma_word_then(
        s,
        pos,
        "let"@,
        r2,
        seq![TokenView::Identifiere(name)] + (seq![TokenView::Assign] + k7),
    );
}

/// A `return` statement with an expression is read as its tokens.
proof fn lemma_return_spells(value: ExpressionView, s: Seq<char>, pos: int)
    requires
        writable(value),
        holds(s, pos, statement_text(StatementView::Return(Some(value)))),
    ensures
        lexes(
            s,
            pos,
            statement_text(StatementView::Return(Some(value))).len() as int,
            statement_tokens(StatementView::Return(Some(value))),
        ),
    decreases value, 3nat,
{
    lemma_marks();
    lemma_keywords();
    let tv = expression_text(value);
    let kv = expression_tokens(value);
    let r2 = tv + ";"@;
    let r1 = " "@ + r2;
    let at1 = pos + 6;
    let at2 = at1 + 1;
    let at3 = at2 + tv.len();
    lemma_holds_split(s, pos, "return"@, r1);
    lemma_holds_split(s, at1, " "@, r2);
    lemma_holds_split(s, at2, tv, ";"@);
    lemma_holds_index(s, at3, ";"@, 0);
    lemma_mark_last(s, at3, ";"@, ';', TokenView::Semicolon);
    assert(lexes(s, at2, tv.len() as int, kv)) by {
        lemma_expression_spells(value, s, at2);
    }
    lemma_part_then(s, at2, tv, ";"@, kv, seq![TokenView::Semicolon]);
    lemma_space_then(s, at1, " "@, r2, kv + seq![TokenView::Semicolon]);
    lemma_word_then(s, pos, "return"@, r1, kv + seq![TokenView::Semicolon]);
}

/// A statement that can be written down is read as its tokens.
pub proof fn lemma_statement_spells(st: StatementView, s: Seq<char>, pos: int)
    requires
        statement_writable(st),
        holds(s, pos, statement_text(st)),
    ensures
        lexes(s, pos, statement_text(st).len() as int, statement_tokens(st)),
    decreases st, 0nat,
{
    lemma_marks();
    lemma_keywords();
    match st {
        StatementView::Let(name, value) => {
            lemma_let_spells(name, value, s, pos);
        },
        StatementView::Return(None) => {
            lemma_holds_split(s, pos, "return"@, ";"@);
            lemma_mark_last(s, pos + 6, ";"@, ';', TokenView::Semicolon);
            lemma_word_then(s, pos, "return"@, ";"@, seq![TokenView::Semicolon]);
        },
        StatementView::Return(Some(value)) => {
            lemma_return_spells(value, s, pos);
        },
        StatementView::Expression(value) => {
            let tv = expression_text(value);
            lemma_holds_split(s, pos, tv, ";"@);
            lemma_holds_index(s, pos + tv.len(), ";"@, 0);
            lemma_mark_last(s, pos + tv.len(), ";"@, ';', TokenView::Semicolon);
            lemma_expression_spells(value, s, pos);
            lemma_part_then(
                s,
                pos,
                tv,
                ";"@,
                expression_tokens(value),
                seq![TokenView::Semicolon],
            );
        },
    }
}

/// The statements of a block and the closing brace after them are read as
/// their tokens.
pub proof fn lemma_statements_spell(
    stmts: Seq<StatementView>,
    from: int,
    s: Seq<char>,
    pos: int,
)
    requires
        0 <= from <= stmts.len(),
        statements_writable(stmts),
        holds(s, pos, statements_text(stmts, from) + "}"@),
    ensures
        lexes(
            s,
            pos,
            (statements_text(stmts, from) + "}"@).len() as int,
            statements_tokens(stmts, from),
        ),
    decreases stmts, stmts.len() - from,
{
    lemma_marks();
    let closer = "}"@;
    if from == stmts.len() {
        assert(statements_text(stmts, from) + closer =~= closer);
        lemma_mark_last(s, pos, closer, '}', TokenView::RBrace);
    } else {
        let first = statement_text(stmts[from]);
        let rest = statements_text(stmts, from + 1) + closer;
        assert(statements_text(stmts, from) + closer =~= first + rest);
        lemma_holds_split(s, pos, first, rest);
        lemma_statement_spells(stmts[from], s, pos);
        lemma_statements_spell(stmts, from + 1, s, pos + first.len());
        lemma_part_then(
            s,
            pos,
            first,
            rest,
            statement_tokens(stmts[from]),
            statements_tokens(stmts, from + 1),
        );
    }
}

/// A block that can be written down is read as its tokens.
pub proof fn lemma_block_spells(stmts: Seq<StatementView>, s: Seq<char>, pos: int)
    requires
        statements_writable(stmts),
        holds(s, pos, block_text(stmts)),
    ensures
        lexes(s, pos, block_text(stmts).len() as int, block_tokens(stmts)),
    decreases stmts, stmts.len() + 1,
{
    lemma_marks();
    let inner = statements_text(stmts, 0) + "}"@;
    lemma_holds_split(s, pos, "{"@, inner);
    lemma_statements_spell(stmts, 0, s, pos + 1);
    lemma_mark_then(s, pos, "{"@, inner, '{', TokenView::LBrace, statements_tokens(stmts, 0));
}

/// The statements of a program, up to the end of the text, are read as
/// their tokens.
pub proof fn lemma_program_spells(stmts: Seq<StatementView>, from: int, s: Seq<char>, pos: int)
    requires
        0 <= from <= stmts.len(),
        statements_writable(stmts),
        holds(s, pos, statements_text(stmts, from)),
    ensures
        lexes(s, pos, statements_text(stmts, from).len() as int, program_tokens(stmts, from)),
    decreases stmts.len() - from,
{
    lemma_holds_within(s, pos, statements_text(stmts, from));
    if from == stmts.len() {
        lemma_nothing_lexes(s, pos);
    } else {
        let first = statement_text(stmts[from]);
        let rest = statements_text(stmts, from + 1);
        lemma_holds_split(s, pos, first, rest);
        lemma_statement_spells(stmts[from], s, pos);
        lemma_program_spells(stmts, from + 1, s, pos + first.len());
        lemma_part_then(
            s,
            pos,
            first,
            rest,
            statement_tokens(stmts[from]),
            program_tokens(stmts, from + 1),
        );
    }
}

} // verus!
