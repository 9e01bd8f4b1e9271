//! What holds of every program: laws of the semantics, and of the way
//! from a tree to its text and back. They hold of what the program
//! computes, because its functions deliver exactly what the definitions
//! say.

use crate::arithmetic::{
    is_arithmetic, lemma_operation_lexes, lemma_operation_parses, lemma_operation_value,
    operation_text,
};
use crate::ast::{expression_text, statements_text, ExpressionView, Infix, StatementView};
use crate::enviroment::{bind, env_wf, extended, lookup, ScopeView};
use crate::faithful::{lemma_expression_writable, lemma_program_writable, lemma_tokens_ok};
use crate::grammar::{
    advances, block_at, expression_at, expression_statement_at, group_at, lemma_block_advances,
    lemma_expression_advances, lemma_operator_advances, lemma_pair_advances, lemma_primary_advances,
    lemma_statement_advances, operator_at, pair_at, parameters_at, precedence_of, primary_at,
    program_of, rank, statement_at, statements_to_end, ParseErrorView, Precedence,
};
use crate::interpreter::{meaning, FailureModel};
use crate::lexer::{token_at, tokenize, LexError, TokenView};
use crate::lexing_back::{lemma_expression_spells, lemma_program_spells};
use crate::object::Value;
use crate::parsing_back::{lemma_expression_read_alone, lemma_program_reads};
use crate::semantics::{
    bind_all, call_function, eval_expression, eval_expressions, eval_pairs, eval_program,
    integer_value, run_statements, truncated_quotient, EvalError, MAX_CALL_DEPTH,
};
use crate::soundness::{ends_soundly, lemma_statements_sound};
use crate::spelling::lemma_lexes_whole;
use crate::writing::{
    expression_tokens, lemma_holds_whole, program_tokens, statements_writable, writable,
};
use vstd::prelude::*;

verus! {

/// The quotient that rounds toward zero leaves a remainder that is
/// smaller in size than the divisor and that has the sign of the dividend,
/// or is zero.
pub proof fn lemma_truncated_quotient(a: int, b: int)
    requires
        b != 0,
    ensures
        ({
            let r = a - truncated_quotient(a, b) * b;
            &&& a >= 0 ==> 0 <= r
            &&& a <= 0 ==> r <= 0
            &&& b > 0 ==> -b < r < b
            &&& b < 0 ==> b < r < -b
        }),
{
    let q = truncated_quotient(a, b);
    if a >= 0 && b > 0 {
        assert(a == b * (a / b) + a % b && 0 <= a % b < b) by (nonlinear_arith)
            requires
                b > 0,
        ;
        assert(q * b == b * (a / b)) by (nonlinear_arith)
            requires
                q == a / b,
        ;
    } else if a < 0 && b < 0 {
        let m = -a;
        let d = -b;
        assert(m == d * (m / d) + m % d && 0 <= m % d < d) by (nonlinear_arith)
            requires
                d > 0,
        ;
        assert(q * b == -(d * (m / d))) by (nonlinear_arith)
            requires
                q == m / d,
                b == -d,
        ;
    } else if a < 0 {
        let m = -a;
        assert(m == b * (m / b) + m % b && 0 <= m % b < b) by (nonlinear_arith)
            requires
                b > 0,
        ;
        assert(q * b == -(b * (m / b))) by (nonlinear_arith)
            requires
                q == -(m / b),
        ;
    } else {
        let d = -b;
        assert(a == d * (a / d) + a % d && 0 <= a % d < d) by (nonlinear_arith)
            requires
                d > 0,
        ;
        assert(q * b == d * (a / d)) by (nonlinear_arith)
            requires
                q == -(a / d),
                b == -d,
        ;
    }
}

/// Integer arithmetic is that of the mathematical integers.
///
/// In every environment, the sum, the difference and the product of two
/// integer literals evaluate to the integer that mathematics gives, and
/// their quotient by a divisor other than zero to the quotient rounded
/// toward zero; to an overflow error where that integer is beyond the range
/// of integers. The environment stays as it is.
pub proof fn lemma_integer_arithmetic(
    op: Infix,
    a: i64,
    b: i64,
    env: Seq<ScopeView>,
    scope: int,
    depth: nat,
)
    ensures
        ({
            let outcome = eval_expression(
                ExpressionView::Infix(
                    op,
                    Box::new(ExpressionView::IntegerLiteral(a)),
                    Box::new(ExpressionView::IntegerLiteral(b)),
                ),
                env,
                scope,
                depth,
            );
            &&& outcome.env == env
            &&& op == Infix::Plus ==> outcome.result == integer_value(a + b)
            &&& op == Infix::Minus ==> outcome.result == integer_value(a - b)
            &&& op == Infix::Asterisk ==> outcome.result == integer_value(a * b)
            &&& op == Infix::Slash && b != 0 ==> outcome.result == integer_value(
                truncated_quotient(a as int, b as int),
            )
        }),
{
    let left = ExpressionView::IntegerLiteral(a);
    let right = ExpressionView::IntegerLiteral(b);
    assert(eval_expression(left, env, scope, depth).result == Ok::<Value, EvalError>(
        Value::Integer(a),
    ));
    assert(eval_expression(right, env, scope, depth).result == Ok::<Value, EvalError>(
        Value::Integer(b),
    ));
}

/// What an evaluation gave, as what the interpretation of a text gives.
pub open spec fn evaluated(result: Result<Value, EvalError>) -> Result<Value, FailureModel> {
    match result {
        Ok(value) => Ok(value),
        Err(error) => Err(FailureModel::Evaluation(error)),
    }
}

/// Integer arithmetic, from text to value, is that of the mathematical
/// integers.
///
/// Take two integers above the least one, write their numerals with `+`,
/// `-`, `*` or `/` between them, a space on either side of the operator, and
/// interpret the text in any environment. The answer is the integer that
/// mathematics gives for the sum, the difference or the product, and the
/// quotient rounded toward zero for the quotient; an overflow error where
/// that integer is beyond the range of integers, and an error for a
/// division by zero. The environment stays as it is.
pub proof fn lemma_arithmetic_from_text(op: Infix, a: i64, b: i64, env: Seq<ScopeView>)
    requires
        is_arithmetic(op),
        a > i64::MIN,
        b > i64::MIN,
    ensures
        ({
            let found = meaning(operation_text(op, a, b), env);
            &&& found.env == env
            &&& op == Infix::Plus ==> found.result == evaluated(integer_value(a + b))
            &&& op == Infix::Minus ==> found.result == evaluated(integer_value(a - b))
            &&& op == Infix::Asterisk ==> found.result == evaluated(integer_value(a * b))
            &&& op == Infix::Slash && b != 0 ==> found.result == evaluated(
                integer_value(truncated_quotient(a as int, b as int)),
            )
            &&& op == Infix::Slash && b == 0 ==> found.result == Err::<Value, FailureModel>(
                FailureModel::Evaluation(EvalError::DivisionByZero),
            )
        }),
{
    lemma_operation_lexes(op, a, b);
    lemma_operation_parses(op, a, b);
    lemma_operation_value(op, a, b, env);
}

/// Binding parameters adds no scope and takes none away.
pub proof fn lemma_bind_all_keeps_scopes(
    env: Seq<ScopeView>,
    scope: int,
    names: Seq<Seq<char>>,
    values: Seq<Value>,
    count: int,
)
    requires
        0 <= scope < env.len(),
    ensures
        bind_all(env, scope, names, values, count).len() == env.len(),
    decreases count,
{
    if count > 0 {
        lemma_bind_all_keeps_scopes(env, scope, names, values, count - 1);
    }
}

/// An evaluation takes no scope away: the environment that it leaves
/// behind has at least as many scopes as the one it started in.
pub proof fn lemma_expression_keeps_scopes(
    e: ExpressionView,
    env: Seq<ScopeView>,
    scope: int,
    depth: nat,
)
    requires
        0 <= scope < env.len(),
    ensures
        env.len() <= eval_expression(e, env, scope, depth).env.len(),
    decreases depth, e, 0nat,
{
    match e {
        ExpressionView::Prefix(_, operand) => {
            lemma_expression_keeps_scopes(*operand, env, scope, depth);
        },
        ExpressionView::Infix(_, left, right) => {
            lemma_expression_keeps_scopes(*left, env, scope, depth);
            let first = eval_expression(*left, env, scope, depth);
            if first.result is Ok {
                lemma_expression_keeps_scopes(*right, first.env, scope, depth);
            }
        },
        ExpressionView::If(condition, then, otherwise) => {
            lemma_expression_keeps_scopes(*condition, env, scope, depth);
            let test = eval_expression(*condition, env, scope, depth);
            match test.result {
                Ok(Value::Bool(true)) => {
                    lemma_statements_keep_scopes(then, 0, Value::Null, test.env, scope, depth);
                },
                Ok(Value::Bool(false)) => {
                    match otherwise {
                        Some(block) => {
                            lemma_statements_keep_scopes(
                                block,
                                0,
                                Value::Null,
                                test.env,
                                scope,
                                depth,
                            );
                        },
                        None => {},
                    }
                },
                _ => {},
            }
        },
        ExpressionView::ArrayLiteral(members) => {
            lemma_expressions_keep_scopes(members, 0, Seq::empty(), env, scope, depth);
        },
        ExpressionView::HashMapLiteral(pairs) => {
            lemma_pairs_keep_scopes(pairs, 0, Seq::empty(), env, scope, depth);
        },
        ExpressionView::Index(container, index) => {
            lemma_expression_keeps_scopes(*container, env, scope, depth);
            let first = eval_expression(*container, env, scope, depth);
            if first.result is Ok {
                lemma_expression_keeps_scopes(*index, first.env, scope, depth);
            }
        },
        ExpressionView::Call(callee, arguments) => {
            lemma_expression_keeps_scopes(*callee, env, scope, depth);
            let first = eval_expression(*callee, env, scope, depth);
            match first.result {
                Ok(function) => {
                    lemma_expressions_keep_scopes(
                        arguments,
                        0,
                        Seq::empty(),
                        first.env,
                        scope,
                        depth,
                    );
                    let all = eval_expressions(
                        arguments,
                        0,
                        Seq::empty(),
                        first.env,
                        scope,
                        depth,
                    );
                    match all.result {
                        Ok(values) => {
                            match function {
                                Value::FunctionLiteral(parameters, body, captured) => {
                                    if depth > 0 {
                                        lemma_call_keeps_scopes(
                                            parameters,
                                            values,
                                            body,
                                            captured,
                                            all.env,
                                            (depth - 1) as nat,
                                        );
                                    }
                                },
                                _ => {},
                            }
                        },
                        Err(_) => {},
                    }
                },
                Err(_) => {},
            }
        },
        _ => {},
    }
}

/// The call of a function takes no scope away.
pub proof fn lemma_call_keeps_scopes(
    parameters: Seq<Seq<char>>,
    arguments: Seq<Value>,
    body: Seq<StatementView>,
    captured: int,
    env: Seq<ScopeView>,
    depth: nat,
)
    ensures
        env.len() <= call_function(parameters, arguments, body, captured, env, depth).env.len(),
    decreases depth, body, body.len() + 1,
{
    if arguments.len() != parameters.len() {
        return ;
    }
    let scope = env.len() as int;
    let inner = extended(env, captured);
    lemma_bind_all_keeps_scopes(inner, scope, parameters, arguments, parameters.len() as int);
    lemma_statements_keep_scopes(
        body,
        0,
        Value::Null,
        bind_all(inner, scope, parameters, arguments, parameters.len() as int),
        scope,
        depth,
    );
}

/// The evaluation of a list takes no scope away.
pub proof fn lemma_expressions_keep_scopes(
    es: Seq<ExpressionView>,
    from: int,
    done: Seq<Value>,
    env: Seq<ScopeView>,
    scope: int,
    depth: nat,
)
    requires
        0 <= scope < env.len(),
    ensures
        env.len() <= eval_expressions(es, from, done, env, scope, depth).env.len(),
    decreases depth, es, es.len() - from,
{
    if 0 <= from < es.len() {
        lemma_expression_keeps_scopes(es[from], env, scope, depth);
        let first = eval_expression(es[from], env, scope, depth);
        match first.result {
            Ok(value) => {
                lemma_expressions_keep_scopes(
                    es,
                    from + 1,
                    done.push(value),
                    first.env,
                    scope,
                    depth,
                );
            },
            Err(_) => {},
        }
    }
}

/// The evaluation of the pairs of a hash literal takes no scope away.
pub proof fn lemma_pairs_keep_scopes(
    pairs: Seq<(ExpressionView, ExpressionView)>,
    from: int,
    done: Seq<(Value, Value)>,
    env: Seq<ScopeView>,
    scope: int,
    depth: nat,
)
    requires
        0 <= scope < env.len(),
    ensures
        env.len() <= eval_pairs(pairs, from, done, env, scope, depth).env.len(),
    decreases depth, pairs, pairs.len() - from,
{
    if 0 <= from < pairs.len() {
        lemma_expression_keeps_scopes(pairs[from].0, env, scope, depth);
        let first = eval_expression(pairs[from].0, env, scope, depth);
        match first.result {
            Ok(key) => {
                lemma_expression_keeps_scopes(pairs[from].1, first.env, scope, depth);
                let second = eval_expression(pairs[from].1, first.env, scope, depth);
                match second.result {
                    Ok(value) => {
                        if crate::object::is_hashable(key) {
                            lemma_pairs_keep_scopes(
                                pairs,
                                from + 1,
                                crate::object::hash_insert(done, key, value),
                                second.env,
                                scope,
                                depth,
                            );
                        }
                    },
                    Err(_) => {},
                }
            },
            Err(_) => {},
        }
    }
}

/// A run of statements takes no scope away.
pub proof fn lemma_statements_keep_scopes(
    stmts: Seq<StatementView>,
    from: int,
    last: Value,
    env: Seq<ScopeView>,
    scope: int,
    depth: nat,
)
    requires
        0 <= scope < env.len(),
    ensures
        env.len() <= run_statements(stmts, from, last, env, scope, depth).env.len(),
    decreases depth, stmts, stmts.len() - from,
{
    if 0 <= from < stmts.len() {
        match stmts[from] {
            StatementView::Let(name, value) => {
                lemma_expression_keeps_scopes(value, env, scope, depth);
                let bound = eval_expression(value, env, scope, depth);
                match bound.result {
                    Ok(v) => {
                        lemma_statements_keep_scopes(
                            stmts,
                            from + 1,
                            Value::Null,
                            bind(bound.env, scope, name, v),
                            scope,
                            depth,
                        );
                    },
                    Err(_) => {},
                }
            },
            StatementView::Return(Some(value)) => {
                lemma_expression_keeps_scopes(value, env, scope, depth);
            },
            StatementView::Return(None) => {},
            StatementView::Expression(value) => {
                lemma_expression_keeps_scopes(value, env, scope, depth);
                let next = eval_expression(value, env, scope, depth);
                match next.result {
                    Ok(v) => {
                        lemma_statements_keep_scopes(stmts, from + 1, v, next.env, scope, depth);
                    },
                    Err(_) => {},
                }
            },
        }
    }
}

/// To bind a name to an expression and then to use the name is to use the
/// expression.
///
/// In every scope of every environment, the two statements `let x = E; x`
/// have the result that the statement `E` has alone: the same value, or
/// the same error.
pub proof fn lemma_let_then_use(
    name: Seq<char>,
    e: ExpressionView,
    env: Seq<ScopeView>,
    scope: int,
    depth: nat,
)
    requires
        0 <= scope < env.len(),
    ensures
        run_statements(
            seq![
                StatementView::Let(name, e),
                StatementView::Expression(ExpressionView::Identifier(name)),
            ],
            0,
            Value::Null,
            env,
            scope,
            depth,
        ).result == run_statements(
            seq![StatementView::Expression(e)],
            0,
            Value::Null,
            env,
            scope,
            depth,
        ).result,
{
    let both = seq![
        StatementView::Let(name, e),
        StatementView::Expression(ExpressionView::Identifier(name)),
    ];
    let alone = seq![StatementView::Expression(e)];
    let first = eval_expression(e, env, scope, depth);
    lemma_expression_keeps_scopes(e, env, scope, depth);
    match first.result {
        Ok(value) => {
            let bound = bind(first.env, scope, name, value);
            assert(bound[scope].store.contains_key(name));
            assert(lookup(bound, scope, name) == Some(value));
            let used = eval_expression(ExpressionView::Identifier(name), bound, scope, depth);
            assert(used.result == Ok::<Value, EvalError>(value));
            assert(run_statements(both, 1, Value::Null, bound, scope, depth).result == Ok::<
                Value,
                EvalError,
            >(value)) by {
                assert(run_statements(both, 2, value, used.env, scope, depth).result == Ok::<
                    Value,
                    EvalError,
                >(value));
            }
            assert(run_statements(alone, 1, value, first.env, scope, depth).result == Ok::<
                Value,
                EvalError,
            >(value));
        },
        Err(_) => {},
    }
}

/// Evaluation keeps the environment sound.
///
/// Whatever the program: if the environment that its evaluation starts in
/// is sound, so is the one that it leaves behind, which has lost no scope;
/// and the value of the program, if it has one, is sound in it.
pub proof fn lemma_program_sound(program: Seq<StatementView>, env: Seq<ScopeView>)
    requires
        env_wf(env),
    ensures
        ends_soundly(env, eval_program(program, env)),
{
    lemma_statements_sound(program, 0, Value::Null, env, 0, MAX_CALL_DEPTH as nat);
}

/// No parse stalls.
///
/// Whatever the tokens and wherever the grammar starts in them: a tree that
/// it finds ends after the token that it started at, and within the tokens.
/// So the grammar never takes the arms that say what to do with a tree that
/// does not.
pub proof fn lemma_parse_advances(
    ts: Seq<TokenView>,
    pos: int,
    bound: Precedence,
    left: ExpressionView,
)
    requires
        0 <= pos,
    ensures
        advances(primary_at(ts, pos), ts, pos),
        advances(group_at(ts, pos), ts, pos),
        advances(parameters_at(ts, pos), ts, pos),
        advances(expression_at(ts, pos, bound), ts, pos),
        advances(pair_at(ts, pos), ts, pos),
        advances(statement_at(ts, pos), ts, pos),
        advances(block_at(ts, pos), ts, pos),
        rank(precedence_of(token_at(ts, pos))) > 0 ==> advances(
            operator_at(ts, pos, left),
            ts,
            pos,
        ),
{
    lemma_primary_advances(ts, pos);
    lemma_expression_advances(ts, pos, bound);
    lemma_pair_advances(ts, pos);
    lemma_statement_advances(ts, pos);
    lemma_block_advances(ts, pos);
    if rank(precedence_of(token_at(ts, pos))) > 0 {
        lemma_operator_advances(ts, pos, left);
    }
}

/// The text of an expression is read back as the expression.
///
/// For every expression that can be written down, the lexer cuts its text
/// into tokens, and the parser finds in these tokens the expression itself
/// and nothing after it; as a program, the tokens are the one statement that
/// the expression is.
pub proof fn lemma_expression_text_parses_back(e: ExpressionView)
    requires
        writable(e),
    ensures
        tokenize(expression_text(e)) == Ok::<Seq<TokenView>, LexError>(expression_tokens(e)),
        expression_at(expression_tokens(e), 0, Precedence::Lowest) == Ok::<
            (ExpressionView, int),
            ParseErrorView,
        >((e, expression_tokens(e).len() as int)),
        program_of(expression_tokens(e)) == Ok::<Seq<StatementView>, ParseErrorView>(
            seq![StatementView::Expression(e)],
        ),
{
    let text = expression_text(e);
    let tokens = expression_tokens(e);
    let end = tokens.len() as int;
    lemma_holds_whole(text);
    lemma_expression_spells(e, text, 0);
    lemma_lexes_whole(text, tokens);
    lemma_holds_whole(tokens);
    lemma_expression_read_alone(e, tokens, 0, Precedence::Lowest);
    assert(expression_statement_at(tokens, 0) == Ok::<(StatementView, int), ParseErrorView>(
        (StatementView::Expression(e), end),
    ));
    assert(statement_at(tokens, 0) == Ok::<(StatementView, int), ParseErrorView>(
        (StatementView::Expression(e), end),
    ));
    assert(statements_to_end(tokens, end) == Ok::<(Seq<StatementView>, int), ParseErrorView>(
        (Seq::empty(), end),
    ));
    assert(statements_to_end(tokens, 0) == Ok::<(Seq<StatementView>, int), ParseErrorView>(
        (seq![StatementView::Expression(e)], end),
    )) by {
        assert(seq![StatementView::Expression(e)] + Seq::<StatementView>::empty() =~= seq![
            StatementView::Expression(e),
        ]);
    }
}

/// The text of a program is read back as the program.
///
/// For every sequence of statements that can be written down, the lexer
/// cuts its text into tokens, and these tokens are the program itself.
pub proof fn lemma_program_text_parses_back(stmts: Seq<StatementView>)
    requires
        statements_writable(stmts),
    ensures
        tokenize(statements_text(stmts, 0)) == Ok::<Seq<TokenView>, LexError>(
            program_tokens(stmts, 0),
        ),
        program_of(program_tokens(stmts, 0)) == Ok::<Seq<StatementView>, ParseErrorView>(stmts),
{
    let text = statements_text(stmts, 0);
    let tokens = program_tokens(stmts, 0);
    lemma_holds_whole(text);
    lemma_program_spells(stmts, 0, text, 0);
    lemma_lexes_whole(text, tokens);
    lemma_holds_whole(tokens);
    lemma_program_reads(stmts, 0, tokens, 0);
    assert(stmts.skip(0) =~= stmts);
}

/// An expression that was parsed from a text is read back from its own
/// text.
///
/// Whatever the text was, wherever in its tokens the grammar found the
/// expression, and whatever had to bind less tightly than its operators:
/// the text that the expression is shown as has a token sequence, and the
/// grammar finds in it the expression again and nothing after it; as a
/// program, that sequence is the one statement that the expression is.
pub proof fn lemma_parsed_expression_parses_back(
    text: Seq<char>,
    pos: int,
    bound: Precedence,
    e: ExpressionView,
)
    requires
        0 <= pos,
        tokenize(text) matches Ok(tokens) && (expression_at(tokens, pos, bound) matches Ok(
            (found, _),
        ) && found == e),
    ensures
        tokenize(expression_text(e)) matches Ok(tokens) && expression_at(
            tokens,
            0,
            Precedence::Lowest,
        ) == Ok::<(ExpressionView, int), ParseErrorView>((e, tokens.len() as int)) && program_of(
            tokens,
        ) == Ok::<Seq<StatementView>, ParseErrorView>(seq![StatementView::Expression(e)]),
{
    let tokens = tokenize(text)->Ok_0;
    lemma_tokens_ok(text, 0);
    lemma_expression_writable(tokens, pos, bound);
    lemma_expression_text_parses_back(e);
}

/// A program that was parsed from a text is read back from its own text.
///
/// Whatever the text was that the program was parsed from: the text that
/// the program is shown as has a token sequence, and the program of that
/// sequence is the program again.
pub proof fn lemma_parsed_program_parses_back(text: Seq<char>, stmts: Seq<StatementView>)
    requires
        tokenize(text) matches Ok(tokens) && program_of(tokens) == Ok::<
            Seq<StatementView>,
            ParseErrorView,
        >(stmts),
    ensures
        tokenize(statements_text(stmts, 0)) matches Ok(tokens) && program_of(tokens) == Ok::<
            Seq<StatementView>,
            ParseErrorView,
        >(stmts),
{
    let tokens = tokenize(text)->Ok_0;
    lemma_tokens_ok(text, 0);
    lemma_program_writable(tokens, 0);
    lemma_program_text_parses_back(stmts);
}

} // verus!
