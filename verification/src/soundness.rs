//! Evaluation keeps the environment sound: whatever a program does, every
//! scope keeps pointing outward to a scope made before it, and every
//! function value keeps belonging to a scope that exists.

use crate::ast::{ExpressionView, StatementView};
use crate::enviroment::{bind, env_wf, extended, lemma_bind_wf, lemma_extended_wf, ScopeView};
use crate::object::{
    hash_insert, is_hashable, lemma_hash_insert_wf, lemma_value_wf_grows, value_wf, Value,
};
use crate::semantics::{
    bind_all, call_function, eval_expression, eval_expressions, eval_pairs, lemma_apply_infix_wf,
    lemma_apply_prefix_wf, lemma_builtin_result_wf, lemma_identifier_value_wf, lemma_index_value_wf,
    run_statements, values_wf, Outcome,
};
use vstd::prelude::*;

verus! {

/// Whether an evaluation that started in the environment `before` ended
/// soundly: the environment that it left behind is sound and has lost no
/// scope, and the value that it gave, if it gave one, is sound in it.
pub open spec fn ends_soundly(before: Seq<ScopeView>, outcome: Outcome<Value>) -> bool {
    &&& env_wf(outcome.env)
    &&& before.len() <= outcome.env.len()
    &&& outcome.result matches Ok(value) ==> value_wf(value, outcome.env.len() as int)
}

/// Whether the evaluation of a list that started in the environment `before`
/// ended soundly.
pub open spec fn list_ends_soundly(before: Seq<ScopeView>, outcome: Outcome<Seq<Value>>) -> bool {
    &&& env_wf(outcome.env)
    &&& before.len() <= outcome.env.len()
    &&& outcome.result matches Ok(values) ==> values_wf(values, outcome.env.len() as int)
}

/// Whether the evaluation of the pairs of a hash literal that started in the
/// environment `before` ended soundly.
pub open spec fn entries_end_soundly(
    before: Seq<ScopeView>,
    outcome: Outcome<Seq<(Value, Value)>>,
) -> bool {
    &&& env_wf(outcome.env)
    &&& before.len() <= outcome.env.len()
    &&& outcome.result matches Ok(entries) ==> value_wf(
        Value::HashMap(entries),
        outcome.env.len() as int,
    )
}

/// Values that are sound among some scopes are sound among more.
pub proof fn lemma_values_wf_grow(values: Seq<Value>, scopes: int, more: int)
    requires
        values_wf(values, scopes),
        scopes <= more,
    ensures
        values_wf(values, more),
{
    assert forall|i: int| 0 <= i < values.len() implies value_wf(#[trigger] values[i], more) by {
        lemma_value_wf_grows(values[i], scopes, more);
    }
}

/// Binding parameters to sound values keeps an environment sound, and
/// adds no scope.
pub proof fn lemma_bind_all_wf(
    env: Seq<ScopeView>,
    scope: int,
    names: Seq<Seq<char>>,
    values: Seq<Value>,
    count: int,
)
    requires
        env_wf(env),
        0 <= scope < env.len(),
        count <= values.len(),
        values_wf(values, env.len() as int),
    ensures
        env_wf(bind_all(env, scope, names, values, count)),
        bind_all(env, scope, names, values, count).len() == env.len(),
    decreases count,
{
    if count > 0 {
        lemma_bind_all_wf(env, scope, names, values, count - 1);
        lemma_bind_wf(
            bind_all(env, scope, names, values, count - 1),
            scope,
            names[count - 1],
            values[count - 1],
        );
    }
}

/// The evaluation of an expression in a sound environment ends soundly.
pub proof fn lemma_expression_sound(
    e: ExpressionView,
    env: Seq<ScopeView>,
    scope: int,
    depth: nat,
)
    requires
        env_wf(env),
        0 <= scope < env.len(),
    ensures
        ends_soundly(env, eval_expression(e, env, scope, depth)),
    decreases depth, e, 0nat,
{
    match e {
        ExpressionView::Identifier(name) => {
            lemma_identifier_value_wf(env, scope, name);
        },
        ExpressionView::Prefix(op, operand) => {
            lemma_expression_sound(*operand, env, scope, depth);
            let inner = eval_expression(*operand, env, scope, depth);
            match inner.result {
                Ok(value) => {
                    lemma_apply_prefix_wf(op, value, inner.env.len() as int);
                },
                Err(_) => {},
            }
        },
        ExpressionView::Infix(op, left, right) => {
            lemma_expression_sound(*left, env, scope, depth);
            let first = eval_expression(*left, env, scope, depth);
            match first.result {
                Ok(left_value) => {
                    lemma_expression_sound(*right, first.env, scope, depth);
                    let second = eval_expression(*right, first.env, scope, depth);
                    match second.result {
                        Ok(right_value) => {
                            lemma_apply_infix_wf(
                                op,
                                left_value,
                                right_value,
                                second.env.len() as int,
                            );
                        },
                        Err(_) => {},
                    }
                },
                Err(_) => {},
            }
        },
        ExpressionView::If(condition, then, otherwise) => {
            lemma_expression_sound(*condition, env, scope, depth);
            let test = eval_expression(*condition, env, scope, depth);
            match test.result {
                Ok(Value::Bool(true)) => {
                    lemma_statements_sound(then, 0, Value::Null, test.env, scope, depth);
                },
                Ok(Value::Bool(false)) => {
                    match otherwise {
                        Some(block) => {
                            lemma_statements_sound(block, 0, Value::Null, test.env, scope, depth);
                        },
                        None => {},
                    }
                },
                _ => {},
            }
        },
        ExpressionView::ArrayLiteral(members) => {
            lemma_expressions_sound(members, 0, Seq::empty(), env, scope, depth);
        },
        ExpressionView::HashMapLiteral(pairs) => {
            lemma_pairs_sound(pairs, 0, Seq::empty(), env, scope, depth);
        },
        ExpressionView::Index(container, index) => {
            lemma_expression_sound(*container, env, scope, depth);
            let first = eval_expression(*container, env, scope, depth);
            match first.result {
                Ok(container_value) => {
                    lemma_expression_sound(*index, first.env, scope, depth);
                    let second = eval_expression(*index, first.env, scope, depth);
                    match second.result {
                        Ok(index_value) => {
                            lemma_value_wf_grows(
                                container_value,
                                first.env.len() as int,
                                second.env.len() as int,
                            );
                            lemma_index_value_wf(
                                container_value,
                                index_value,
                                second.env.len() as int,
                            );
                        },
                        Err(_) => {},
                    }
                },
                Err(_) => {},
            }
        },
        ExpressionView::Call(callee, arguments) => {
            lemma_expression_sound(*callee, env, scope, depth);
            let first = eval_expression(*callee, env, scope, depth);
            match first.result {
                Ok(function) => {
                    lemma_expressions_sound(arguments, 0, Seq::empty(), first.env, scope, depth);
                    let all = eval_expressions(
                        arguments,
                        0,
                        Seq::empty(),
                        first.env,
                        scope,
                        depth,
                    );
                    match all.result {
                        Ok(values) => {
                            lemma_value_wf_grows(
                                function,
                                first.env.len() as int,
                                all.env.len() as int,
                            );
                            lemma_builtin_result_wf(function, values, all.env.len() as int);
                            match function {
                                Value::FunctionLiteral(parameters, body, captured) => {
                                    if depth > 0 {
                                        lemma_call_sound(
                                            parameters,
                                            values,
                                            body,
                                            captured,
                                            all.env,
                                            (depth - 1) as nat,
                                        );
                                    }
                                },
                                _ => {},
                            }
                        },
                        Err(_) => {},
                    }
                },
                Err(_) => {},
            }
        },
        _ => {},
    }
}

/// The call of a sound function on sound arguments in a sound environment
/// ends soundly.
pub proof fn lemma_call_sound(
    parameters: Seq<Seq<char>>,
    arguments: Seq<Value>,
    body: Seq<StatementView>,
    captured: int,
    env: Seq<ScopeView>,
    depth: nat,
)
    requires
        env_wf(env),
        0 <= captured < env.len(),
        values_wf(arguments, env.len() as int),
    ensures
        ends_soundly(env, call_function(parameters, arguments, body, captured, env, depth)),
    decreases depth, body, body.len() + 1,
{
    if arguments.len() == parameters.len() {
        let scope = env.len() as int;
        let inner = extended(env, captured);
        lemma_extended_wf(env, captured);
        lemma_values_wf_grow(arguments, env.len() as int, inner.len() as int);
        lemma_bind_all_wf(inner, scope, parameters, arguments, parameters.len() as int);
        lemma_statements_sound(
            body,
            0,
            Value::Null,
            bind_all(inner, scope, parameters, arguments, parameters.len() as int),
            scope,
            depth,
        );
    }
}

/// The evaluation of a list in a sound environment ends soundly.
pub proof fn lemma_expressions_sound(
    es: Seq<ExpressionView>,
    from: int,
    done: Seq<Value>,
    env: Seq<ScopeView>,
    scope: int,
    depth: nat,
)
    requires
        env_wf(env),
        0 <= scope < env.len(),
        values_wf(done, env.len() as int),
    ensures
        list_ends_soundly(env, eval_expressions(es, from, done, env, scope, depth)),
    decreases depth, es, es.len() - from,
{
    if 0 <= from < es.len() {
        lemma_expression_sound(es[from], env, scope, depth);
        let first = eval_expression(es[from], env, scope, depth);
        match first.result {
            Ok(value) => {
                lemma_values_wf_grow(done, env.len() as int, first.env.len() as int);
                let more = done.push(value);
                assert forall|i: int| 0 <= i < more.len() implies value_wf(
                    #[trigger] more[i],
                    first.env.len() as int,
                ) by {
                    if i < done.len() {
                        assert(more[i] == done[i]);
                    }
                }
                lemma_expressions_sound(es, from + 1, more, first.env, scope, depth);
            },
            Err(_) => {},
        }
    }
}

/// The evaluation of the pairs of a hash literal in a sound environment
/// ends soundly.
pub proof fn lemma_pairs_sound(
    pairs: Seq<(ExpressionView, ExpressionView)>,
    from: int,
    done: Seq<(Value, Value)>,
    env: Seq<ScopeView>,
    scope: int,
    depth: nat,
)
    requires
        env_wf(env),
        0 <= scope < env.len(),
        value_wf(Value::HashMap(done), env.len() as int),
    ensures
        entries_end_soundly(env, eval_pairs(pairs, from, done, env, scope, depth)),
    decreases depth, pairs, pairs.len() - from,
{
    if 0 <= from < pairs.len() {
        lemma_expression_sound(pairs[from].0, env, scope, depth);
        let first = eval_expression(pairs[from].0, env, scope, depth);
        match first.result {
            Ok(key) => {
                lemma_expression_sound(pairs[from].1, first.env, scope, depth);
                let second = eval_expression(pairs[from].1, first.env, scope, depth);
                match second.result {
                    Ok(value) => {
                        if is_hashable(key) {
                            lemma_value_wf_grows(
                                Value::HashMap(done),
                                env.len() as int,
                                second.env.len() as int,
                            );
                            lemma_hash_insert_wf(done, key, value, second.env.len() as int);
                            lemma_pairs_sound(
                                pairs,
                                from + 1,
                                hash_insert(done, key, value),
                                second.env,
                                scope,
                                depth,
                            );
                        }
                    },
                    Err(_) => {},
                }
            },
            Err(_) => {},
        }
    }
}

/// A run of statements in a sound environment ends soundly.
pub proof fn lemma_statements_sound(
    stmts: Seq<StatementView>,
    from: int,
    last: Value,
    env: Seq<ScopeView>,
    scope: int,
    depth: nat,
)
    requires
        env_wf(env),
        0 <= scope < env.len(),
        value_wf(last, env.len() as int),
    ensures
        ends_soundly(env, run_statements(stmts, from, last, env, scope, depth)),
    decreases depth, stmts, stmts.len() - from,
{
    if 0 <= from < stmts.len() {
        match stmts[from] {
            StatementView::Let(name, value) => {
                lemma_expression_sound(value, env, scope, depth);
                let bound = eval_expression(value, env, scope, depth);
                match bound.result {
                    Ok(v) => {
                        lemma_bind_wf(bound.env, scope, name, v);
                        lemma_statements_sound(
                            stmts,
                            from + 1,
                            Value::Null,
                            bind(bound.env, scope, name, v),
                            scope,
                            depth,
                        );
                    },
                    Err(_) => {},
                }
            },
            StatementView::Return(Some(value)) => {
                lemma_expression_sound(value, env, scope, depth);
            },
            StatementView::Return(None) => {},
            StatementView::Expression(value) => {
                lemma_expression_sound(value, env, scope, depth);
                let next = eval_expression(value, env, scope, depth);
                match next.result {
                    Ok(v) => {
                        lemma_statements_sound(stmts, from + 1, v, next.env, scope, depth);
                    },
                    Err(_) => {},
                }
            },
        }
    }
}

} // verus!
