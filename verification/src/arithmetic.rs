//! Arithmetic from text to value: what the three stages make of two integer
//! numerals with an operator between them.

use crate::ast::{infix_text, ExpressionView, Infix, Prefix, StatementView};
use crate::enviroment::ScopeView;
use crate::grammar::{
    expression_at, expression_statement_at, operator_at, operators_from, precedence_of, prefix_at,
    primary_at, program_of, rank, statement_at, statements_to_end, ParseErrorView, Precedence,
};
use crate::lexer::{token_at, tokenize, LexError, TokenView};
use crate::object::Value;
use crate::semantics::{
    apply_infix, apply_prefix, eval_expression, eval_program, run_statements, EvalError,
};
use crate::spelling::{
    breaks, lemma_integer_lexes, lemma_lexes_join, lemma_lexes_whole, lemma_marks, lemma_part_then,
    lemma_punctuation_lexes, lemma_space_then, lexes,
};
use crate::text::{decimal_int, decimal_nat};
use crate::writing::{
    holds, lemma_holds_first, lemma_holds_index, lemma_holds_one, lemma_holds_split,
    lemma_holds_whole, lemma_holds_within,
};
use vstd::prelude::*;

verus! {

/// Whether an operator is one of the four of arithmetic.
pub open spec fn is_arithmetic(op: Infix) -> bool {
    op == Infix::Plus || op == Infix::Minus || op == Infix::Asterisk || op == Infix::Slash
}

/// The token that spells an operator of arithmetic.
pub open spec fn operator_token(op: Infix) -> TokenView {
    match op {
        Infix::Plus => TokenView::Plus,
        Infix::Minus => TokenView::Minus,
        Infix::Asterisk => TokenView::Asterisk,
        _ => TokenView::Slash,
    }
}

/// The tokens of the numeral of an integer: a minus sign before the
/// magnitude, if the integer is negative.
pub open spec fn operand_tokens(a: i64) -> Seq<TokenView> {
    if a < 0 {
        seq![TokenView::Minus] + seq![TokenView::Integer((-a) as i64)]
    } else {
        seq![TokenView::Integer(a)]
    }
}

/// The expression that the numeral of an integer is: the negation of the
/// magnitude, if the integer is negative.
pub open spec fn operand_tree(a: i64) -> ExpressionView {
    if a < 0 {
        ExpressionView::Prefix(
            Prefix::Minus,
            Box::new(ExpressionView::IntegerLiteral((-a) as i64)),
        )
    } else {
        ExpressionView::IntegerLiteral(a)
    }
}

/// The text of an operation: the numeral of the left operand, a space, the
/// operator, a space, and the numeral of the right operand.
pub open spec fn operation_text(op: Infix, a: i64, b: i64) -> Seq<char> {
    decimal_int(a as int) + (" "@ + (infix_text(op) + (" "@ + decimal_int(b as int))))
}

/// The tokens of the text of an operation.
pub open spec fn operation_tokens(op: Infix, a: i64, b: i64) -> Seq<TokenView> {
    operand_tokens(a) + (seq![operator_token(op)] + operand_tokens(b))
}

/// The expression that the text of an operation is.
pub open spec fn operation_tree(op: Infix, a: i64, b: i64) -> ExpressionView {
    ExpressionView::Infix(op, Box::new(operand_tree(a)), Box::new(operand_tree(b)))
}

/// The numeral of an integer above the least one is read as its tokens.
pub proof fn lemma_operand_lexes(a: i64, s: Seq<char>, pos: int)
    requires
        a > i64::MIN,
        holds(s, pos, decimal_int(a as int)),
        breaks(s, pos + decimal_int(a as int).len()),
    ensures
        lexes(s, pos, decimal_int(a as int).len() as int, operand_tokens(a)),
{
    if a < 0 {
        let magnitude = (-a) as i64;
        let sign = seq!['-'];
        let numeral = decimal_nat(magnitude as nat);
        lemma_holds_split(s, pos, sign, numeral);
        lemma_holds_index(s, pos, sign, 0);
        lemma_punctuation_lexes(s, pos, '-', TokenView::Minus);
        lemma_integer_lexes(s, pos + 1, magnitude);
        lemma_lexes_join(
            s,
            pos,
            1,
            seq![TokenView::Minus],
            numeral.len() as int,
            seq![TokenView::Integer(magnitude)],
        );
    } else {
        lemma_integer_lexes(s, pos, a);
    }
}

/// The text of an operation on two integers above the least one has the
/// tokens of the operation.
pub proof fn lemma_operation_lexes(op: Infix, a: i64, b: i64)
    requires
        is_arithmetic(op),
        a > i64::MIN,
        b > i64::MIN,
    ensures
        tokenize(operation_text(op, a, b)) == Ok::<Seq<TokenView>, LexError>(
            operation_tokens(op, a, b),
        ),
{
    lemma_marks();
    reveal_strlit("+");
    reveal_strlit("-");
    reveal_strlit("*");
    reveal_strlit("/");
    let s = operation_text(op, a, b);
    let left = decimal_int(a as int);
    let right = decimal_int(b as int);
    let sign = infix_text(op);
    let c = sign[0];
    let rest3 = " "@ + right;
    let rest2 = sign + rest3;
    let rest1 = " "@ + rest2;
    let at1 = left.len() as int;
    let at2 = at1 + 1;
    let at3 = at2 + 1;
    let at4 = at3 + 1;
    lemma_holds_whole(s);
    lemma_holds_split(s, 0, left, rest1);
    lemma_holds_split(s, at1, " "@, rest2);
    lemma_holds_split(s, at2, sign, rest3);
    lemma_holds_split(s, at3, " "@, right);
    lemma_holds_index(s, at1, " "@, 0);
    lemma_holds_index(s, at2, sign, 0);
    lemma_holds_index(s, at3, " "@, 0);
    lemma_operand_lexes(b, s, at4);
    lemma_space_then(s, at3, " "@, right, operand_tokens(b));
    lemma_punctuation_lexes(s, at2, c, operator_token(op));
    lemma_lexes_join(
        s,
        at2,
        1,
        seq![operator_token(op)],
        rest3.len() as int,
        operand_tokens(b),
    );
    lemma_space_then(s, at1, " "@, rest2, seq![operator_token(op)] + operand_tokens(b));
    lemma_operand_lexes(a, s, 0);
    lemma_part_then(
        s,
        0,
        left,
        rest1,
        operand_tokens(a),
        seq![operator_token(op)] + operand_tokens(b),
    );
    lemma_lexes_whole(s, operation_tokens(op, a, b));
}

/// The tokens of the numeral of an integer are read as the expression that
/// the numeral is, where what follows binds less tightly than a prefix
/// operator.
pub proof fn lemma_operand_reads(a: i64, ts: Seq<TokenView>, pos: int, bound: Precedence)
    requires
        a > i64::MIN,
        holds(ts, pos, operand_tokens(a)),
        rank(precedence_of(token_at(ts, pos + operand_tokens(a).len()))) < 5,
    ensures
        pos + operand_tokens(a).len() <= ts.len(),
        expression_at(ts, pos, bound) == operators_from(
            ts,
            pos + operand_tokens(a).len(),
            bound,
            operand_tree(a),
        ),
{
    lemma_holds_within(ts, pos, operand_tokens(a));
    if a < 0 {
        let magnitude = (-a) as i64;
        let literal = ExpressionView::IntegerLiteral(magnitude);
        lemma_holds_first(ts, pos, TokenView::Minus, seq![TokenView::Integer(magnitude)]);
        lemma_holds_one(ts, pos + 1, TokenView::Integer(magnitude));
        assert(primary_at(ts, pos + 1) == Ok::<(ExpressionView, int), ParseErrorView>(
            (literal, pos + 2),
        ));
        assert(operators_from(ts, pos + 2, Precedence::Prefix, literal) == Ok::<
            (ExpressionView, int),
            ParseErrorView,
        >((literal, pos + 2)));
        assert(expression_at(ts, pos + 1, Precedence::Prefix) == Ok::<
            (ExpressionView, int),
            ParseErrorView,
        >((literal, pos + 2)));
        assert(prefix_at(ts, pos) == Ok::<(ExpressionView, int), ParseErrorView>(
            (operand_tree(a), pos + 2),
        ));
        assert(primary_at(ts, pos) == Ok::<(ExpressionView, int), ParseErrorView>(
            (operand_tree(a), pos + 2),
        ));
    } else {
        lemma_holds_one(ts, pos, TokenView::Integer(a));
        assert(primary_at(ts, pos) == Ok::<(ExpressionView, int), ParseErrorView>(
            (operand_tree(a), pos + 1),
        ));
    }
}

/// The tokens of an operation are the program of one statement, the
/// operation.
pub proof fn lemma_operation_parses(op: Infix, a: i64, b: i64)
    requires
        is_arithmetic(op),
        a > i64::MIN,
        b > i64::MIN,
    ensures
        program_of(operation_tokens(op, a, b)) == Ok::<Seq<StatementView>, ParseErrorView>(
            seq![StatementView::Expression(operation_tree(op, a, b))],
        ),
{
    let ts = operation_tokens(op, a, b);
    let left = operand_tokens(a);
    let right = operand_tokens(b);
    let sign = operator_token(op);
    let tree = operation_tree(op, a, b);
    let at1 = left.len() as int;
    let end = ts.len() as int;
    lemma_holds_whole(ts);
    lemma_holds_split(ts, 0, left, seq![sign] + right);
    lemma_holds_first(ts, at1, sign, right);
    lemma_operand_reads(a, ts, 0, Precedence::Lowest);
    lemma_operand_reads(b, ts, at1 + 1, precedence_of(sign));
    assert(operators_from(ts, end, precedence_of(sign), operand_tree(b)) == Ok::<
        (ExpressionView, int),
        ParseErrorView,
    >((operand_tree(b), end)));
    assert(operator_at(ts, at1, operand_tree(a)) == Ok::<(ExpressionView, int), ParseErrorView>(
        (tree, end),
    ));
    assert(operators_from(ts, end, Precedence::Lowest, tree) == Ok::<
        (ExpressionView, int),
        ParseErrorView,
    >((tree, end)));
    assert(operators_from(ts, at1, Precedence::Lowest, operand_tree(a)) == Ok::<
        (ExpressionView, int),
        ParseErrorView,
    >((tree, end)));
    assert(expression_statement_at(ts, 0) == Ok::<(StatementView, int), ParseErrorView>(
        (StatementView::Expression(tree), end),
    ));
    assert(statement_at(ts, 0) == Ok::<(StatementView, int), ParseErrorView>(
        (StatementView::Expression(tree), end),
    ));
    assert(statements_to_end(ts, end) == Ok::<(Seq<StatementView>, int), ParseErrorView>(
        (Seq::empty(), end),
    ));
    assert(seq![StatementView::Expression(tree)] + Seq::<StatementView>::empty() =~= seq![
        StatementView::Expression(tree),
    ]);
}

/// The expression that the numeral of an integer is has the integer as its
/// value, and leaves the environment as it is.
pub proof fn lemma_operand_value(a: i64, env: Seq<ScopeView>, scope: int, depth: nat)
    requires
        a > i64::MIN,
    ensures
        eval_expression(operand_tree(a), env, scope, depth).result == Ok::<Value, EvalError>(
            Value::Integer(a),
        ),
        eval_expression(operand_tree(a), env, scope, depth).env == env,
{
    if a < 0 {
        let magnitude = (-a) as i64;
        let literal = ExpressionView::IntegerLiteral(magnitude);
        assert(eval_expression(literal, env, scope, depth).result == Ok::<Value, EvalError>(
            Value::Integer(magnitude),
        ));
        assert(apply_prefix(Prefix::Minus, Value::Integer(magnitude)) == Ok::<Value, EvalError>(
            Value::Integer(a),
        ));
    }
}

/// The program of one statement, an operation, has what the operator makes
/// of the two integers, and leaves the environment as it is.
pub proof fn lemma_operation_value(op: Infix, a: i64, b: i64, env: Seq<ScopeView>)
    requires
        a > i64::MIN,
        b > i64::MIN,
    ensures
        eval_program(seq![StatementView::Expression(operation_tree(op, a, b))], env).result
            == apply_infix(op, Value::Integer(a), Value::Integer(b)),
        eval_program(seq![StatementView::Expression(operation_tree(op, a, b))], env).env == env,
{
    let depth = crate::semantics::MAX_CALL_DEPTH as nat;
    let program = seq![StatementView::Expression(operation_tree(op, a, b))];
    lemma_operand_value(a, env, 0, depth);
    lemma_operand_value(b, env, 0, depth);
    let whole = eval_expression(operation_tree(op, a, b), env, 0, depth);
    assert(whole.result == apply_infix(op, Value::Integer(a), Value::Integer(b)));
    assert(whole.env == env);
    match whole.result {
        Ok(value) => {
            assert(run_statements(program, 1, value, env, 0, depth).result == Ok::<
                Value,
                EvalError,
            >(value));
        },
        Err(_) => {},
    }
}

} // verus!
