//! Reading back what was written: the parser finds in the tokens of a tree
//! the tree itself.

use crate::ast::{ExpressionView, Infix, Prefix, StatementView};
use crate::grammar::{
    arguments_at, array_at, block_at, call_at, conditional_at, expression_at,
    expression_statement_at, expressions_until, function_at, group_at, hash_at, infix_of, let_at,
    names_until, operator_at, operators_from, pair_at, pairs_until, parameters_at, precedence_of,
    prefix_at, prefix_of, primary_at, program_from, rank, return_at, skip, statement_at,
    statements_until_brace, subscript_at, ParseErrorView, Precedence,
};
use crate::lexer::{token_at, TokenView};
use crate::writing::{
    block_tokens, expression_tokens, expressions_tokens, holds, infix_token, lemma_holds_first,
    lemma_holds_one, lemma_holds_split, lemma_holds_within, names_tokens, otherwise_tokens,
    pairs_tokens, prefix_token, program_tokens, statement_tokens, statement_writable,
    statements_tokens, statements_writable, writable,
};
use vstd::prelude::*;

verus! {

/// Whether a token can be the first of an expression that can be written
/// down.
pub open spec fn starts_expression(token: TokenView) -> bool {
    match token {
        TokenView::Identifiere(_) => true,
        TokenView::Integer(_) => true,
        TokenView::String(_) => true,
        TokenView::True => true,
        TokenView::False => true,
        TokenView::If => true,
        TokenView::Func => true,
        TokenView::LBracket => true,
        TokenView::LBrace => true,
        TokenView::LParen => true,
        _ => false,
    }
}

/// What it is for the expression `e` to be read back from the tokens at
/// `pos`, among operators that must bind tighter than `bound`: from there the
/// grammar finds `e`, and goes on with the operators that follow its tokens.
pub open spec fn reads(e: ExpressionView, ts: Seq<TokenView>, pos: int, bound: Precedence) -> bool {
    &&& expression_tokens(e).len() > 0
    &&& pos + expression_tokens(e).len() <= ts.len()
    &&& starts_expression(token_at(ts, pos))
    &&& expression_at(ts, pos, bound) == operators_from(
        ts,
        pos + expression_tokens(e).len(),
        bound,
        e,
    )
}

/// Where the token that follows binds no tighter than the bound, an
/// expression stays as it is.
proof fn lemma_no_operator(ts: Seq<TokenView>, pos: int, left: ExpressionView, bound: Precedence)
    requires
        rank(precedence_of(token_at(ts, pos))) <= rank(bound),
    ensures
        operators_from(ts, pos, bound, left) == Ok::<(ExpressionView, int), ParseErrorView>(
            (left, pos),
        ),
{
}

/// A primary expression that the grammar finds is the start of the
/// expression that it finds.
proof fn lemma_primary_found(
    e: ExpressionView,
    ts: Seq<TokenView>,
    pos: int,
    end: int,
    bound: Precedence,
)
    requires
        primary_at(ts, pos) == Ok::<(ExpressionView, int), ParseErrorView>((e, end)),
        pos < end <= ts.len(),
    ensures
        expression_at(ts, pos, bound) == operators_from(ts, end, bound, e),
{
}

/// The names of a parameter list are read back from their tokens.
pub proof fn lemma_names_read(names: Seq<Seq<char>>, from: int, ts: Seq<TokenView>, pos: int)
    requires
        0 <= from <= names.len(),
        holds(ts, pos, names_tokens(names, from)),
    ensures
        names_until(ts, pos) == Ok::<(Seq<Seq<char>>, int), ParseErrorView>(
            (names.skip(from), pos + names_tokens(names, from).len()),
        ),
    decreases names.len() - from,
{
    if from == names.len() {
        lemma_holds_one(ts, pos, TokenView::RParen);
        assert(names.skip(from) =~= Seq::<Seq<char>>::empty());
    } else if from == names.len() - 1 {
        lemma_holds_first(
            ts,
            pos,
            TokenView::Identifiere(names[from]),
            seq![TokenView::RParen],
        );
        lemma_holds_one(ts, pos + 1, TokenView::RParen);
        assert(skip(ts, pos + 1, TokenView::Comma) == pos + 1);
        assert(names_until(ts, pos + 1) == Ok::<(Seq<Seq<char>>, int), ParseErrorView>(
            (Seq::empty(), pos + 2),
        ));
        assert(seq![names[from]] + Seq::<Seq<char>>::empty() =~= names.skip(from));
    } else {
        let rest = names_tokens(names, from + 1);
        lemma_holds_first(
            ts,
            pos,
            TokenView::Identifiere(names[from]),
            seq![TokenView::Comma] + rest,
        );
        lemma_holds_first(ts, pos + 1, TokenView::Comma, rest);
        assert(skip(ts, pos + 1, TokenView::Comma) == pos + 2);
        lemma_names_read(names, from + 1, ts, pos + 2);
        assert(seq![names[from]] + names.skip(from + 1) =~= names.skip(from));
    }
}

/// A conditional is read back from its tokens.
proof fn lemma_conditional_reads(
    condition: ExpressionView,
    then: Seq<StatementView>,
    otherwise: Option<Seq<StatementView>>,
    ts: Seq<TokenView>,
    pos: int,
    bound: Precedence,
)
    requires
        rank(bound) <= 5,
        writable(ExpressionView::If(Box::new(condition), then, otherwise)),
        holds(
            ts,
            pos,
            expression_tokens(ExpressionView::If(Box::new(condition), then, otherwise)),
        ),
        token_at(
            ts,
            pos + expression_tokens(
                ExpressionView::If(Box::new(condition), then, otherwise),
            ).len(),
        ) != TokenView::Else,
    ensures
        reads(ExpressionView::If(Box::new(condition), then, otherwise), ts, pos, bound),
    decreases ExpressionView::If(Box::new(condition), then, otherwise), 0nat,
{
    let e = ExpressionView::If(Box::new(condition), then, otherwise);
    let n = expression_tokens(e).len() as int;
    let test = expression_tokens(condition);
    let first = block_tokens(then);
    let tail = otherwise_tokens(otherwise);
    assert(*e->If_0 == condition && e->If_1 == then && e->If_2 == otherwise);
    lemma_holds_within(ts, pos, expression_tokens(e));
    lemma_holds_first(
        ts,
        pos,
        TokenView::If,
        seq![TokenView::LParen] + (test + (seq![TokenView::RParen] + (first + tail))),
    );
    lemma_holds_first(
        ts,
        pos + 1,
        TokenView::LParen,
        test + (seq![TokenView::RParen] + (first + tail)),
    );
    lemma_holds_split(ts, pos + 2, test, seq![TokenView::RParen] + (first + tail));
    let close = pos + 2 + test.len();
    lemma_holds_first(ts, close, TokenView::RParen, first + tail);
    lemma_holds_split(ts, close + 1, first, tail);
    let after_then = close + 1 + first.len();
    assert(group_at(ts, pos + 1) == Ok::<(ExpressionView, int), ParseErrorView>(
        (condition, close + 1),
    )) by {
        lemma_expression_reads(condition, ts, pos + 2, Precedence::Lowest);
        lemma_no_operator(ts, close, condition, Precedence::Lowest);
    }
    assert(block_at(ts, close + 1) == Ok::<(Seq<StatementView>, int), ParseErrorView>(
        (then, after_then),
    )) by {
        lemma_block_reads(then, ts, close + 1);
    }
    lemma_holds_within(ts, close + 1, first);
    match otherwise {
        Some(block) => {
            lemma_holds_first(ts, after_then, TokenView::Else, block_tokens(block));
            assert(block_at(ts, after_then + 1) == Ok::<
                (Seq<StatementView>, int),
                ParseErrorView,
            >((block, pos + n))) by {
                lemma_block_reads(block, ts, after_then + 1);
            }
        },
        None => {},
    }
    assert(conditional_at(ts, pos) == Ok::<(ExpressionView, int), ParseErrorView>((e, pos + n)));
    assert(primary_at(ts, pos) == Ok::<(ExpressionView, int), ParseErrorView>((e, pos + n)));
    lemma_primary_found(e, ts, pos, pos + n, bound);
}

/// A function literal is read back from its tokens.
proof fn lemma_function_reads(
    parameters: Seq<Seq<char>>,
    body: Seq<StatementView>,
    ts: Seq<TokenView>,
    pos: int,
    bound: Precedence,
)
    requires
        rank(bound) <= 5,
        writable(ExpressionView::FunctionLiteral(parameters, body)),
        holds(ts, pos, expression_tokens(ExpressionView::FunctionLiteral(parameters, body))),
    ensures
        reads(ExpressionView::FunctionLiteral(parameters, body), ts, pos, bound),
    decreases ExpressionView::FunctionLiteral(parameters, body), 0nat,
{
    let e = ExpressionView::FunctionLiteral(parameters, body);
    let n = expression_tokens(e).len() as int;
    let names = names_tokens(parameters, 0);
    let block = block_tokens(body);
    assert(e->FunctionLiteral_0 == parameters && e->FunctionLiteral_1 == body);
    lemma_holds_within(ts, pos, expression_tokens(e));
    lemma_holds_first(ts, pos, TokenView::Func, seq![TokenView::LParen] + (names + block));
    lemma_holds_first(ts, pos + 1, TokenView::LParen, names + block);
    lemma_holds_split(ts, pos + 2, names, block);
    let after = pos + 2 + names.len();
    assert(parameters_at(ts, pos + 1) == Ok::<(Seq<Seq<char>>, int), ParseErrorView>(
        (parameters, after),
    )) by {
        lemma_names_read(parameters, 0, ts, pos + 2);
        assert(parameters.skip(0) =~= parameters);
    }
    assert(block_at(ts, after) == Ok::<(Seq<StatementView>, int), ParseErrorView>(
        (body, pos + n),
    )) by {
        lemma_block_reads(body, ts, after);
    }
    lemma_holds_within(ts, pos + 2, names);
    assert(function_at(ts, pos) == Ok::<(ExpressionView, int), ParseErrorView>((e, pos + n)));
    assert(primary_at(ts, pos) == Ok::<(ExpressionView, int), ParseErrorView>((e, pos + n)));
    lemma_primary_found(e, ts, pos, pos + n, bound);
}

/// A hash literal is read back from its tokens.
proof fn lemma_hash_reads(
    pairs: Seq<(ExpressionView, ExpressionView)>,
    ts: Seq<TokenView>,
    pos: int,
    bound: Precedence,
)
    requires
        rank(bound) <= 5,
        writable(ExpressionView::HashMapLiteral(pairs)),
        holds(ts, pos, expression_tokens(ExpressionView::HashMapLiteral(pairs))),
    ensures
        reads(ExpressionView::HashMapLiteral(pairs), ts, pos, bound),
    decreases ExpressionView::HashMapLiteral(pairs), 0nat,
{
    let e = ExpressionView::HashMapLiteral(pairs);
    let n = expression_tokens(e).len() as int;
    assert(e->HashMapLiteral_0 == pairs);
    lemma_holds_within(ts, pos, expression_tokens(e));
    lemma_holds_first(ts, pos, TokenView::LBrace, pairs_tokens(pairs, 0));
    lemma_pairs_read(pairs, 0, ts, pos + 1);
    assert(pairs.skip(0) =~= pairs);
    assert(hash_at(ts, pos) == Ok::<(ExpressionView, int), ParseErrorView>((e, pos + n)));
    assert(primary_at(ts, pos) == Ok::<(ExpressionView, int), ParseErrorView>((e, pos + n)));
    lemma_primary_found(e, ts, pos, pos + n, bound);
}

/// An array literal is read back from its tokens.
proof fn lemma_array_reads(members: Seq<ExpressionView>, ts: Seq<TokenView>, pos: int, bound: Precedence)
    requires
        rank(bound) <= 5,
        writable(ExpressionView::ArrayLiteral(members)),
        holds(ts, pos, expression_tokens(ExpressionView::ArrayLiteral(members))),
    ensures
        reads(ExpressionView::ArrayLiteral(members), ts, pos, bound),
    decreases ExpressionView::ArrayLiteral(members), 0nat,
{
    let e = ExpressionView::ArrayLiteral(members);
    let n = expression_tokens(e).len() as int;
    assert(e->ArrayLiteral_0 == members);
    lemma_holds_within(ts, pos, expression_tokens(e));
    lemma_holds_first(
        ts,
        pos,
        TokenView::LBracket,
        expressions_tokens(members, 0, TokenView::RBracket),
    );
    lemma_expressions_read(members, 0, ts, pos + 1, TokenView::RBracket);
    assert(members.skip(0) =~= members);
    assert(array_at(ts, pos) == Ok::<(ExpressionView, int), ParseErrorView>((e, pos + n)));
    assert(primary_at(ts, pos) == Ok::<(ExpressionView, int), ParseErrorView>((e, pos + n)));
    lemma_primary_found(e, ts, pos, pos + n, bound);
}

/// A subscript is read back from its tokens.
proof fn lemma_subscript_reads(
    container: ExpressionView,
    index: ExpressionView,
    ts: Seq<TokenView>,
    pos: int,
    bound: Precedence,
)
    requires
        rank(bound) <= 5,
        writable(ExpressionView::Index(Box::new(container), Box::new(index))),
        holds(
            ts,
            pos,
            expression_tokens(ExpressionView::Index(Box::new(container), Box::new(index))),
        ),
    ensures
        reads(ExpressionView::Index(Box::new(container), Box::new(index)), ts, pos, bound),
    decreases ExpressionView::Index(Box::new(container), Box::new(index)), 0nat,
{
    let e = ExpressionView::Index(Box::new(container), Box::new(index));
    let n = expression_tokens(e).len() as int;
    let head = expression_tokens(container);
    let inner = expression_tokens(index);
    assert(*e->Index_0 == container && *e->Index_1 == index);
    lemma_holds_within(ts, pos, expression_tokens(e));
    lemma_holds_split(
        ts,
        pos,
        head,
        seq![TokenView::LBracket] + (inner + seq![TokenView::RBracket]),
    );
    let open = pos + head.len();
    lemma_holds_first(ts, open, TokenView::LBracket, inner + seq![TokenView::RBracket]);
    lemma_holds_split(ts, open + 1, inner, seq![TokenView::RBracket]);
    let close = open + 1 + inner.len();
    lemma_holds_one(ts, close, TokenView::RBracket);
    lemma_expression_reads(container, ts, pos, bound);
    assert(subscript_at(ts, open, container) == Ok::<(ExpressionView, int), ParseErrorView>(
        (e, pos + n),
    )) by {
        lemma_expression_reads(index, ts, open + 1, Precedence::Lowest);
        lemma_no_operator(ts, close, index, Precedence::Lowest);
    }
    assert(operator_at(ts, open, container) == Ok::<(ExpressionView, int), ParseErrorView>(
        (e, pos + n),
    ));
    assert(operators_from(ts, open, bound, container) == operators_from(ts, pos + n, bound, e));
}

/// A call is read back from its tokens.
proof fn lemma_call_reads(
    callee: ExpressionView,
    arguments: Seq<ExpressionView>,
    ts: Seq<TokenView>,
    pos: int,
    bound: Precedence,
)
    requires
        rank(bound) <= 5,
        writable(ExpressionView::Call(Box::new(callee), arguments)),
        holds(ts, pos, expression_tokens(ExpressionView::Call(Box::new(callee), arguments))),
    ensures
        reads(ExpressionView::Call(Box::new(callee), arguments), ts, pos, bound),
    decreases ExpressionView::Call(Box::new(callee), arguments), 0nat,
{
    let e = ExpressionView::Call(Box::new(callee), arguments);
    let n = expression_tokens(e).len() as int;
    let head = expression_tokens(callee);
    let list = expressions_tokens(arguments, 0, TokenView::RParen);
    assert(*e->Call_0 == callee && e->Call_1 == arguments);
    lemma_holds_within(ts, pos, expression_tokens(e));
    lemma_holds_split(ts, pos, head, seq![TokenView::LParen] + list);
    let open = pos + head.len();
    lemma_holds_first(ts, open, TokenView::LParen, list);
    lemma_expression_reads(callee, ts, pos, bound);
    assert(arguments_at(ts, open) == Ok::<(Seq<ExpressionView>, int), ParseErrorView>(
        (arguments, pos + n),
    )) by {
        lemma_expressions_read(arguments, 0, ts, open + 1, TokenView::RParen);
        assert(arguments.skip(0) =~= arguments);
    }
    assert(call_at(ts, open, callee) == Ok::<(ExpressionView, int), ParseErrorView>(
        (e, pos + n),
    ));
    assert(operator_at(ts, open, callee) == Ok::<(ExpressionView, int), ParseErrorView>(
        (e, pos + n),
    ));
    assert(operators_from(ts, open, bound, callee) == operators_from(ts, pos + n, bound, e));
}

/// A prefix expression is read back from its tokens.
proof fn lemma_prefix_reads(
    op: Prefix,
    operand: ExpressionView,
    ts: Seq<TokenView>,
    pos: int,
    bound: Precedence,
)
    requires
        rank(bound) <= 5,
        writable(ExpressionView::Prefix(op, Box::new(operand))),
        holds(ts, pos, expression_tokens(ExpressionView::Prefix(op, Box::new(operand)))),
    ensures
        reads(ExpressionView::Prefix(op, Box::new(operand)), ts, pos, bound),
    decreases ExpressionView::Prefix(op, Box::new(operand)), 0nat,
{
    let e = ExpressionView::Prefix(op, Box::new(operand));
    let n = expression_tokens(e).len() as int;
    let inner = expression_tokens(operand);
    let sign = prefix_token(op);
    assert(*e->Prefix_1 == operand);
    lemma_holds_within(ts, pos, expression_tokens(e));
    lemma_holds_first(
        ts,
        pos,
        TokenView::LParen,
        seq![sign] + (inner + seq![TokenView::RParen]),
    );
    lemma_holds_first(ts, pos + 1, sign, inner + seq![TokenView::RParen]);
    lemma_holds_split(ts, pos + 2, inner, seq![TokenView::RParen]);
    let close = pos + 2 + inner.len();
    lemma_holds_one(ts, close, TokenView::RParen);
    assert(expression_at(ts, pos + 2, Precedence::Prefix) == Ok::<
        (ExpressionView, int),
        ParseErrorView,
    >((operand, close))) by {
        lemma_expression_read_alone(operand, ts, pos + 2, Precedence::Prefix);
    }
    assert(prefix_of(sign) == Some(op));
    assert(prefix_at(ts, pos + 1) == Ok::<(ExpressionView, int), ParseErrorView>((e, close)));
    assert(primary_at(ts, pos + 1) == Ok::<(ExpressionView, int), ParseErrorView>((e, close)));
    lemma_primary_found(e, ts, pos + 1, close, Precedence::Lowest);
    lemma_no_operator(ts, close, e, Precedence::Lowest);
    assert(group_at(ts, pos) == Ok::<(ExpressionView, int), ParseErrorView>((e, pos + n)));
    assert(primary_at(ts, pos) == Ok::<(ExpressionView, int), ParseErrorView>((e, pos + n)));
    lemma_primary_found(e, ts, pos, pos + n, bound);
}

/// An infix expression is read back from its tokens.
proof fn lemma_infix_reads(
    op: Infix,
    left: ExpressionView,
    right: ExpressionView,
    ts: Seq<TokenView>,
    pos: int,
    bound: Precedence,
)
    requires
        rank(bound) <= 5,
        writable(ExpressionView::Infix(op, Box::new(left), Box::new(right))),
        holds(
            ts,
            pos,
            expression_tokens(ExpressionView::Infix(op, Box::new(left), Box::new(right))),
        ),
    ensures
        reads(ExpressionView::Infix(op, Box::new(left), Box::new(right)), ts, pos, bound),
    decreases ExpressionView::Infix(op, Box::new(left), Box::new(right)), 0nat,
{
    let e = ExpressionView::Infix(op, Box::new(left), Box::new(right));
    let n = expression_tokens(e).len() as int;
    let first = expression_tokens(left);
    let second = expression_tokens(right);
    let sign = infix_token(op);
    let tighter = precedence_of(sign);
    assert(*e->Infix_1 == left && *e->Infix_2 == right);
    lemma_holds_within(ts, pos, expression_tokens(e));
    lemma_holds_first(
        ts,
        pos,
        TokenView::LParen,
        first + (seq![sign] + (second + seq![TokenView::RParen])),
    );
    lemma_holds_split(ts, pos + 1, first, seq![sign] + (second + seq![TokenView::RParen]));
    let middle = pos + 1 + first.len();
    lemma_holds_first(ts, middle, sign, second + seq![TokenView::RParen]);
    lemma_holds_split(ts, middle + 1, second, seq![TokenView::RParen]);
    let close = middle + 1 + second.len();
    lemma_holds_one(ts, close, TokenView::RParen);
    assert(infix_of(sign) == Some(op));
    assert(0 < rank(tighter) <= 4);
    lemma_expression_reads(left, ts, pos + 1, Precedence::Lowest);
    assert(expression_at(ts, middle + 1, tighter) == Ok::<(ExpressionView, int), ParseErrorView>(
        (right, close),
    )) by {
        lemma_expression_read_alone(right, ts, middle + 1, tighter);
    }
    assert(operator_at(ts, middle, left) == Ok::<(ExpressionView, int), ParseErrorView>(
        (e, close),
    ));
    lemma_no_operator(ts, close, e, Precedence::Lowest);
    assert(operators_from(ts, middle, Precedence::Lowest, left) == Ok::<
        (ExpressionView, int),
        ParseErrorView,
    >((e, close)));
    assert(expression_at(ts, pos + 1, Precedence::Lowest) == Ok::<
        (ExpressionView, int),
        ParseErrorView,
    >((e, close)));
    assert(group_at(ts, pos) == Ok::<(ExpressionView, int), ParseErrorView>((e, pos + n)));
    assert(primary_at(ts, pos) == Ok::<(ExpressionView, int), ParseErrorView>((e, pos + n)));
    lemma_primary_found(e, ts, pos, pos + n, bound);
}

/// An expression that can be written down is read back from its tokens:
/// from where they start, the grammar finds the expression they were
/// written from, and goes on with the operators that follow them. What
/// follows must not be `else`, which would be read as part of a conditional.
pub proof fn lemma_expression_reads(
    e: ExpressionView,
    ts: Seq<TokenView>,
    pos: int,
    bound: Precedence,
)
    requires
        rank(bound) <= 5,
        writable(e),
        holds(ts, pos, expression_tokens(e)),
        token_at(ts, pos + expression_tokens(e).len()) != TokenView::Else,
    ensures
        reads(e, ts, pos, bound),
    decreases e, 1nat,
{
    let n = expression_tokens(e).len() as int;
    let found = Ok::<(ExpressionView, int), ParseErrorView>((e, pos + n));
    match e {
        ExpressionView::Identifier(name) => {
            lemma_holds_one(ts, pos, TokenView::Identifiere(name));
            assert(primary_at(ts, pos) == found);
            lemma_primary_found(e, ts, pos, pos + n, bound);
        },
        ExpressionView::IntegerLiteral(i) => {
            lemma_holds_one(ts, pos, TokenView::Integer(i));
            assert(primary_at(ts, pos) == found);
            lemma_primary_found(e, ts, pos, pos + n, bound);
        },
        ExpressionView::String(s) => {
            lemma_holds_one(ts, pos, TokenView::String(s));
            assert(primary_at(ts, pos) == found);
            lemma_primary_found(e, ts, pos, pos + n, bound);
        },
        ExpressionView::Bool(b) => {
            if b {
                lemma_holds_one(ts, pos, TokenView::True);
            } else {
                lemma_holds_one(ts, pos, TokenView::False);
            }
            assert(primary_at(ts, pos) == found);
            lemma_primary_found(e, ts, pos, pos + n, bound);
        },
        ExpressionView::Prefix(op, operand) => {
            lemma_prefix_reads(op, *operand, ts, pos, bound);
        },
        ExpressionView::Infix(op, left, right) => {
            lemma_infix_reads(op, *left, *right, ts, pos, bound);
        },
        ExpressionView::If(condition, then, otherwise) => {
            lemma_conditional_reads(*condition, then, otherwise, ts, pos, bound);
        },
        ExpressionView::FunctionLiteral(parameters, body) => {
            lemma_function_reads(parameters, body, ts, pos, bound);
        },
        ExpressionView::HashMapLiteral(pairs) => {
            lemma_hash_reads(pairs, ts, pos, bound);
        },
        ExpressionView::ArrayLiteral(members) => {
            lemma_array_reads(members, ts, pos, bound);
        },
        ExpressionView::Index(container, index) => {
            lemma_subscript_reads(*container, *index, ts, pos, bound);
        },
        ExpressionView::Call(callee, arguments) => {
            lemma_call_reads(*callee, arguments, ts, pos, bound);
        },
    }
}

/// An expression that can be written down, and after which no operator
/// follows that binds tighter than the bound, is read back from its tokens,
/// and nothing more is read.
pub proof fn lemma_expression_read_alone(
    e: ExpressionView,
    ts: Seq<TokenView>,
    pos: int,
    bound: Precedence,
)
    requires
        writable(e),
        rank(bound) <= 5,
        holds(ts, pos, expression_tokens(e)),
        token_at(ts, pos + expression_tokens(e).len()) != TokenView::Else,
        rank(precedence_of(token_at(ts, pos + expression_tokens(e).len()))) <= rank(bound),
    ensures
        expression_tokens(e).len() > 0,
        pos + expression_tokens(e).len() <= ts.len(),
        starts_expression(token_at(ts, pos)),
        expression_at(ts, pos, bound) == Ok::<(ExpressionView, int), ParseErrorView>(
            (e, pos + expression_tokens(e).len()),
        ),
    decreases e, 2nat,
{
    lemma_expression_reads(e, ts, pos, bound);
    lemma_no_operator(ts, pos + expression_tokens(e).len(), e, bound);
}

/// The expressions of a list are read back from their tokens.
pub proof fn lemma_expressions_read(
    es: Seq<ExpressionView>,
    from: int,
    ts: Seq<TokenView>,
    pos: int,
    close: TokenView,
)
    requires
        0 <= from <= es.len(),
        forall|i: int| 0 <= i < es.len() ==> writable(#[trigger] es[i]),
        close == TokenView::RParen || close == TokenView::RBracket,
        holds(ts, pos, expressions_tokens(es, from, close)),
    ensures
        expressions_until(ts, pos, close) == Ok::<(Seq<ExpressionView>, int), ParseErrorView>(
            (es.skip(from), pos + expressions_tokens(es, from, close).len()),
        ),
    decreases es, es.len() - from,
{
    if from == es.len() {
        lemma_holds_one(ts, pos, close);
        assert(es.skip(from) =~= Seq::<ExpressionView>::empty());
    } else {
        let first = expression_tokens(es[from]);
        let after = pos + first.len();
        if from == es.len() - 1 {
            lemma_holds_split(ts, pos, first, seq![close]);
            lemma_holds_one(ts, after, close);
            lemma_expression_read_alone(es[from], ts, pos, Precedence::Lowest);
            assert(skip(ts, after, TokenView::Comma) == after);
            lemma_expressions_read(es, from + 1, ts, after, close);
        } else {
            let rest = expressions_tokens(es, from + 1, close);
            lemma_holds_split(ts, pos, first, seq![TokenView::Comma] + rest);
            lemma_holds_first(ts, after, TokenView::Comma, rest);
            lemma_expression_read_alone(es[from], ts, pos, Precedence::Lowest);
            assert(skip(ts, after, TokenView::Comma) == after + 1);
            lemma_expressions_read(es, from + 1, ts, after + 1, close);
        }
        assert(seq![es[from]] + es.skip(from + 1) =~= es.skip(from));
    }
}

/// The pairs of a hash literal are read back from their tokens.
pub proof fn lemma_pairs_read(
    pairs: Seq<(ExpressionView, ExpressionView)>,
    from: int,
    ts: Seq<TokenView>,
    pos: int,
)
    requires
        0 <= from <= pairs.len(),
        forall|i: int|
            0 <= i < pairs.len() ==> writable((#[trigger] pairs[i]).0) && writable(pairs[i].1),
        holds(ts, pos, pairs_tokens(pairs, from)),
    ensures
        pairs_until(ts, pos) == Ok::<
            (Seq<(ExpressionView, ExpressionView)>, int),
            ParseErrorView,
        >((pairs.skip(from), pos + pairs_tokens(pairs, from).len())),
    decreases pairs, pairs.len() - from,
{
    if from == pairs.len() {
        lemma_holds_one(ts, pos, TokenView::RBrace);
        assert(pairs.skip(from) =~= Seq::<(ExpressionView, ExpressionView)>::empty());
    } else {
        let pair = pairs[from];
        let key = expression_tokens(pair.0);
        let value = expression_tokens(pair.1);
        let colon = pos + key.len();
        let after = colon + 1 + value.len();
        let follow = if from == pairs.len() - 1 {
            seq![TokenView::RBrace]
        } else {
            seq![TokenView::Comma] + pairs_tokens(pairs, from + 1)
        };
        lemma_holds_split(ts, pos, key, seq![TokenView::Colon] + (value + follow));
        lemma_holds_first(ts, colon, TokenView::Colon, value + follow);
        lemma_holds_split(ts, colon + 1, value, follow);
        if from == pairs.len() - 1 {
            lemma_holds_one(ts, after, TokenView::RBrace);
        } else {
            lemma_holds_first(ts, after, TokenView::Comma, pairs_tokens(pairs, from + 1));
        }
        assert(pair_at(ts, pos) == Ok::<((ExpressionView, ExpressionView), int), ParseErrorView>(
            (pair, after),
        )) by {
            lemma_expression_read_alone(pair.0, ts, pos, Precedence::Lowest);
            lemma_expression_read_alone(pair.1, ts, colon + 1, Precedence::Lowest);
        }
        assert(token_at(ts, pos) != TokenView::RBrace) by {
            lemma_expression_read_alone(pair.0, ts, pos, Precedence::Lowest);
        }
        if from == pairs.len() - 1 {
            assert(skip(ts, after, TokenView::Comma) == after);
            lemma_pairs_read(pairs, from + 1, ts, after);
        } else {
            assert(skip(ts, after, TokenView::Comma) == after + 1);
            lemma_pairs_read(pairs, from + 1, ts, after + 1);
        }
        assert(seq![pair] + pairs.skip(from + 1) =~= pairs.skip(from));
    }
}

/// What it is for the statement `s` to be read back from the tokens at
/// `pos`.
pub open spec fn statement_reads(s: StatementView, ts: Seq<TokenView>, pos: int) -> bool {
    &&& statement_tokens(s).len() > 0
    &&& pos + statement_tokens(s).len() <= ts.len()
    &&& token_at(ts, pos) != TokenView::RBrace
    &&& token_at(ts, pos) != TokenView::Eof
    &&& statement_at(ts, pos) == Ok::<(StatementView, int), ParseErrorView>(
        (s, pos + statement_tokens(s).len()),
    )
}

/// A `let` statement is read back from its tokens.
proof fn lemma_let_reads(name: Seq<char>, value: ExpressionView, ts: Seq<TokenView>, pos: int)
    requires
        writable(value),
        holds(ts, pos, statement_tokens(StatementView::Let(name, value))),
    ensures
        statement_reads(StatementView::Let(name, value), ts, pos),
    decreases value, 3nat,
{
    let s = StatementView::Let(name, value);
    let inner = expression_tokens(value);
    let end = seq![TokenView::Semicolon];
    lemma_holds_within(ts, pos, statement_tokens(s));
    lemma_holds_first(
        ts,
        pos,
        TokenView::Let,
        seq![TokenView::Identifiere(name)] + (seq![TokenView::Assign] + (inner + end)),
    );
    lemma_holds_first(
        ts,
        pos + 1,
        TokenView::Identifiere(name),
        seq![TokenView::Assign] + (inner + end),
    );
    lemma_holds_first(ts, pos + 2, TokenView::Assign, inner + end);
    lemma_holds_split(ts, pos + 3, inner, end);
    lemma_holds_one(ts, pos + 3 + inner.len(), TokenView::Semicolon);
    lemma_expression_read_alone(value, ts, pos + 3, Precedence::Lowest);
    assert(let_at(ts, pos) == Ok::<(StatementView, int), ParseErrorView>(
        (s, pos + statement_tokens(s).len()),
    ));
}

/// A `return` statement with an expression is read back from its tokens.
proof fn lemma_return_reads(value: ExpressionView, ts: Seq<TokenView>, pos: int)
    requires
        writable(value),
        holds(ts, pos, statement_tokens(StatementView::Return(Some(value)))),
    ensures
        statement_reads(StatementView::Return(Some(value)), ts, pos),
    decreases value, 3nat,
{
    let s = StatementView::Return(Some(value));
    let inner = expression_tokens(value);
    let end = seq![TokenView::Semicolon];
    lemma_holds_within(ts, pos, statement_tokens(s));
    lemma_holds_first(ts, pos, TokenView::Ret, inner + end);
    lemma_holds_split(ts, pos + 1, inner, end);
    lemma_holds_one(ts, pos + 1 + inner.len(), TokenView::Semicolon);
    lemma_expression_read_alone(value, ts, pos + 1, Precedence::Lowest);
    assert(return_at(ts, pos) == Ok::<(StatementView, int), ParseErrorView>(
        (s, pos + statement_tokens(s).len()),
    ));
}

/// An expression as a statement is read back from its tokens.
proof fn lemma_expression_statement_reads(value: ExpressionView, ts: Seq<TokenView>, pos: int)
    requires
        writable(value),
        holds(ts, pos, statement_tokens(StatementView::Expression(value))),
    ensures
        statement_reads(StatementView::Expression(value), ts, pos),
    decreases value, 3nat,
{
    let s = StatementView::Expression(value);
    let inner = expression_tokens(value);
    let end = seq![TokenView::Semicolon];
    lemma_holds_within(ts, pos, statement_tokens(s));
    lemma_holds_split(ts, pos, inner, end);
    lemma_holds_one(ts, pos + inner.len(), TokenView::Semicolon);
    lemma_expression_read_alone(value, ts, pos, Precedence::Lowest);
    assert(expression_statement_at(ts, pos) == Ok::<(StatementView, int), ParseErrorView>(
        (s, pos + statement_tokens(s).len()),
    ));
}

/// A statement that can be written down is read back from its tokens.
pub proof fn lemma_statement_reads(s: StatementView, ts: Seq<TokenView>, pos: int)
    requires
        statement_writable(s),
        holds(ts, pos, statement_tokens(s)),
    ensures
        statement_reads(s, ts, pos),
    decreases s, 0nat,
{
    match s {
        StatementView::Let(name, value) => {
            lemma_let_reads(name, value, ts, pos);
        },
        StatementView::Return(None) => {
            lemma_holds_within(ts, pos, statement_tokens(s));
            lemma_holds_first(ts, pos, TokenView::Ret, seq![TokenView::Semicolon]);
            lemma_holds_one(ts, pos + 1, TokenView::Semicolon);
            assert(return_at(ts, pos) == Ok::<(StatementView, int), ParseErrorView>(
                (s, pos + 2),
            ));
        },
        StatementView::Return(Some(value)) => {
            lemma_return_reads(value, ts, pos);
        },
        StatementView::Expression(value) => {
            lemma_expression_statement_reads(value, ts, pos);
        },
    }
}

/// The statements of a block are read back from their tokens.
pub proof fn lemma_statements_read(
    stmts: Seq<StatementView>,
    from: int,
    ts: Seq<TokenView>,
    pos: int,
)
    requires
        0 <= from <= stmts.len(),
        statements_writable(stmts),
        holds(ts, pos, statements_tokens(stmts, from)),
    ensures
        statements_until_brace(ts, pos) == Ok::<(Seq<StatementView>, int), ParseErrorView>(
            (stmts.skip(from), pos + statements_tokens(stmts, from).len()),
        ),
    decreases stmts, stmts.len() - from,
{
    if from == stmts.len() {
        lemma_holds_one(ts, pos, TokenView::RBrace);
        assert(stmts.skip(from) =~= Seq::<StatementView>::empty());
    } else {
        let first = statement_tokens(stmts[from]);
        let rest = statements_tokens(stmts, from + 1);
        lemma_holds_split(ts, pos, first, rest);
        lemma_holds_within(ts, pos + first.len(), rest);
        lemma_statement_reads(stmts[from], ts, pos);
        lemma_statements_read(stmts, from + 1, ts, pos + first.len());
        assert(seq![stmts[from]] + stmts.skip(from + 1) =~= stmts.skip(from));
    }
}

/// A block that can be written down is read back from its tokens.
pub proof fn lemma_block_reads(stmts: Seq<StatementView>, ts: Seq<TokenView>, pos: int)
    requires
        statements_writable(stmts),
        holds(ts, pos, block_tokens(stmts)),
    ensures
        block_at(ts, pos) == Ok::<(Seq<StatementView>, int), ParseErrorView>(
            (stmts, pos + block_tokens(stmts).len()),
        ),
    decreases stmts, stmts.len() + 1,
{
    lemma_holds_first(ts, pos, TokenView::LBrace, statements_tokens(stmts, 0));
    lemma_statements_read(stmts, 0, ts, pos + 1);
    assert(stmts.skip(0) =~= stmts);
}

/// The statements of a program are read back from their tokens, where the
/// tokens end with them.
pub proof fn lemma_program_reads(
    stmts: Seq<StatementView>,
    from: int,
    ts: Seq<TokenView>,
    pos: int,
)
    requires
        0 <= from <= stmts.len(),
        statements_writable(stmts),
        holds(ts, pos, program_tokens(stmts, from)),
        pos + program_tokens(stmts, from).len() == ts.len(),
    ensures
        program_from(ts, pos) == Ok::<Seq<StatementView>, ParseErrorView>(stmts.skip(from)),
    decreases stmts.len() - from,
{
    if from == stmts.len() {
        assert(stmts.skip(from) =~= Seq::<StatementView>::empty());
    } else {
        let first = statement_tokens(stmts[from]);
        let rest = program_tokens(stmts, from + 1);
        lemma_holds_split(ts, pos, first, rest);
        lemma_statement_reads(stmts[from], ts, pos);
        lemma_program_reads(stmts, from + 1, ts, pos + first.len());
        assert(seq![stmts[from]] + stmts.skip(from + 1) =~= stmts.skip(from));
    }
}

} // verus!
