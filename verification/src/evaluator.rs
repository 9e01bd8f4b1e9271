//! The evaluator: walks the syntax tree and computes its value.
//!
//! Every function here evaluates in one scope of the environment, given by
//! its index, and may hold open no more nested calls than its `depth`. Each
//! gives exactly the result that the semantics gives, and leaves the
//! environment as the semantics leaves it.

use crate::semantics;
use crate::ast::{
    clone_block, clone_names, expressions_view, names_view, pairs_view, statements_view,
    BlockStatement, Expression, ExpressionView, Infix, Prefix, Program, Statement,
};
use crate::enviroment::{
    bind, env_wf, extended, lemma_bind_wf, lemma_extended_wf, EnviromentVariables, ScopeView,
};
use crate::inbuilt::{eval_builtin, get_builtin};
use crate::object::{
    clone_object, entries_view, hash_lookup, hash_put, is_hashable, lemma_hash_insert_wf,
    lemma_value_wf_grows, objects_view, value_wf, Object, Value,
};
use crate::semantics::{
    apply_infix, apply_prefix, bind_all, call_function, eval_expressions, eval_pairs,
    identifier_value, index_value, lemma_apply_infix_wf, lemma_apply_prefix_wf,
    lemma_builtin_result_wf, lemma_identifier_value_wf, lemma_index_value_wf, result_view,
    run_statements, values_wf, EvalError, MAX_CALL_DEPTH, Outcome,
};
use vstd::prelude::*;

verus! {

/// Whether an evaluation ended as the semantics says: with that result, and
/// with the environment in that state.
pub open spec fn evaluates(
    expected: Outcome<Value>,
    result: Result<Object, EvalError>,
    env: Seq<ScopeView>,
) -> bool {
    expected.result == result_view(result) && expected.env == env
}

/// Whether an evaluation kept the environment sound: it is sound, it has
/// lost no scope, and the value that the evaluation gave, if it gave one, is
/// sound in it.
pub open spec fn sound(
    before: Seq<ScopeView>,
    result: Result<Object, EvalError>,
    after: Seq<ScopeView>,
) -> bool {
    &&& env_wf(after)
    &&& before.len() <= after.len()
    &&& result matches Ok(value) ==> value_wf(value@, after.len() as int)
}

/// The view of the result of evaluating a list.
pub open spec fn results_view(result: Result<Vec<Object>, EvalError>) -> Result<
    Seq<Value>,
    EvalError,
> {
    match result {
        Ok(values) => Ok(objects_view(values)),
        Err(error) => Err(error),
    }
}

/// An integer as a value, if there is one.
fn checked(i: Option<i64>) -> (result: Result<Object, EvalError>)
    ensures
        result_view(result) == match i {
            Some(i) => Ok::<Value, EvalError>(Value::Integer(i)),
            None => Err::<Value, EvalError>(EvalError::IntegerOverflow),
        },
{
    match i {
        Some(i) => Ok(Object::Integer(i)),
        None => Err(EvalError::IntegerOverflow),
    }
}

/// Applies a prefix operator to a value.
pub fn eval_prefix(prefix: &Prefix, operand: &Object) -> (result: Result<Object, EvalError>)
    ensures
        result_view(result) == apply_prefix(*prefix, operand@),
{
    match prefix {
        Prefix::Minus => match operand {
            Object::Integer(i) => if *i == i64::MIN {
                Err(EvalError::IntegerOverflow)
            } else {
                Ok(Object::Integer(-*i))
            },
            _ => Err(EvalError::TypeMismatch),
        },
        Prefix::Bang => match operand {
            Object::Bool(b) => Ok(Object::Bool(!*b)),
            _ => Err(EvalError::TypeMismatch),
        },
    }
}

/// Applies an infix operator to two values.
///
/// Integer arithmetic is that of the mathematical integers wherever the
/// result is an integer of the language, and an error elsewhere; division
/// rounds toward zero and fails on a zero divisor.
pub fn eval_infix(infix: &Infix, left: Object, right: Object) -> (result: Result<
    Object,
    EvalError,
>)
    ensures
        result_view(result) == apply_infix(*infix, left@, right@),
{
    match left {
        Object::Integer(left_int) => match right {
            Object::Integer(right_int) => match infix {
                Infix::Plus => checked(left_int.checked_add(right_int)),
                Infix::Minus => checked(left_int.checked_sub(right_int)),
                Infix::Asterisk => checked(left_int.checked_mul(right_int)),
                Infix::Slash => if right_int == 0 {
                    Err(EvalError::DivisionByZero)
                } else {
                    checked(left_int.checked_div(right_int))
                },
                Infix::NotEq => Ok(Object::Bool(left_int != right_int)),
                Infix::Eq => Ok(Object::Bool(left_int == right_int)),
                Infix::Gt => Ok(Object::Bool(left_int > right_int)),
                Infix::Lt => Ok(Object::Bool(left_int < right_int)),
                Infix::LBracket => Err(EvalError::TypeMismatch),
            },
            _ => Err(EvalError::TypeMismatch),
        },
        Object::String(left_str) => match right {
            Object::String(right_str) => match infix {
                Infix::Plus => Ok(Object::String(left_str.concat(right_str.as_str()))),
                _ => Err(EvalError::TypeMismatch),
            },
            _ => Err(EvalError::TypeMismatch),
        },
        _ => Err(EvalError::TypeMismatch),
    }
}

/// Looks up an identifier: in the scope chain first, among the built-in
/// functions after that.
pub fn eval_identifier(identifier: &Expression, env: &EnviromentVariables, scope: usize) -> (result:
    Result<Object, EvalError>)
    ensures
        result_view(result) == match identifier@ {
            ExpressionView::Identifier(name) => identifier_value(env@, scope as int, name),
            _ => Err(EvalError::TypeMismatch),
        },
{
    match identifier {
        Expression::Identifier(i) => {
            let id = env.get(scope, i.as_str());
            if let Some(id) = id {
                return Ok(id);
            }
            let inbuilt_func = get_builtin(i.as_str());
            if let Some(inbuilt_func) = inbuilt_func {
                return Ok(inbuilt_func);
            }
            Err(EvalError::UndefinedIdentifier)
        },
        _ => Err(EvalError::TypeMismatch),
    }
}

/// The member of an array at an index.
pub fn eval_arr_idx(arr: &Vec<Object>, idx: &Object) -> (result: Result<Object, EvalError>)
    ensures
        result_view(result) == index_value(Value::Array(objects_view(*arr)), idx@),
{
    match idx {
        Object::Integer(index) => {
            if *index < 0 || *index as u64 >= arr.len() as u64 {
                return Err(EvalError::IndexOutOfBounds);
            }
            let obj = clone_object(&arr[*index as usize]);
            Ok(obj)
        },
        _ => Err(EvalError::TypeMismatch),
    }
}

/// The value of a hash under a key, and `Null` where it has no such key.
pub fn eval_dict_idx(dict: &Vec<(Object, Object)>, idx: &Object) -> (result: Result<
    Object,
    EvalError,
>)
    ensures
        result_view(result) == index_value(Value::HashMap(entries_view(*dict)), idx@),
{
    hash_lookup(dict, idx)
}

/// Evaluates the operand, then applies the prefix operator to its value.
pub fn eval_prefix_expression(
    prefix: &Prefix,
    expression: &Expression,
    env: &mut EnviromentVariables,
    scope: usize,
    depth: usize,
) -> (result: Result<Object, EvalError>)
    requires
        env_wf(old(env)@),
        scope < old(env)@.len(),
    ensures
        evaluates(
            semantics::eval_expression(
                ExpressionView::Prefix(*prefix, Box::new(expression@)),
                old(env)@,
                scope as int,
                depth as nat,
            ),
            result,
            final(env)@,
        ),
        sound(old(env)@, result, final(env)@),
    decreases depth, Expression::Prefix(*prefix, Box::new(*expression)), 0nat,
{
    proof {
        let whole = Expression::Prefix(*prefix, Box::new(*expression));
        assert(*whole->Prefix_1 == *expression);
        assert(decreases_to!(whole => *expression));
    }
    let expr_val = match eval_expression(expression, env, scope, depth) {
        Ok(value) => value,
        Err(error) => {
            return Err(error);
        },
    };
    proof {
        lemma_apply_prefix_wf(*prefix, expr_val@, env@.len() as int);
    }
    eval_prefix(prefix, &expr_val)
}

/// Evaluates the left operand, then the right one, then applies the infix
/// operator to their values.
pub fn eval_infix_expression(
    infix: &Infix,
    left: &Expression,
    right: &Expression,
    env: &mut EnviromentVariables,
    scope: usize,
    depth: usize,
) -> (result: Result<Object, EvalError>)
    requires
        env_wf(old(env)@),
        scope < old(env)@.len(),
    ensures
        evaluates(
            semantics::eval_expression(
                ExpressionView::Infix(*infix, Box::new(left@), Box::new(right@)),
                old(env)@,
                scope as int,
                depth as nat,
            ),
            result,
            final(env)@,
        ),
        sound(old(env)@, result, final(env)@),
    decreases depth, Expression::Infix(*infix, Box::new(*left), Box::new(*right)), 0nat,
{
    proof {
        let whole = Expression::Infix(*infix, Box::new(*left), Box::new(*right));
        assert(*whole->Infix_1 == *left);
        assert(*whole->Infix_2 == *right);
        assert(decreases_to!(whole => *left));
        assert(decreases_to!(whole => *right));
    }
    let left_obj = match eval_expression(left, env, scope, depth) {
        Ok(value) => value,
        Err(error) => {
            return Err(error);
        },
    };
    let right_obj = match eval_expression(right, env, scope, depth) {
        Ok(value) => value,
        Err(error) => {
            return Err(error);
        },
    };
    proof {
        lemma_apply_infix_wf(*infix, left_obj@, right_obj@, env@.len() as int);
    }
    eval_infix(infix, left_obj, right_obj)
}

/// Runs statements in order and gives the value of the last one, or that of
/// the first `return` statement reached.
fn run(stmts: &Vec<Statement>, env: &mut EnviromentVariables, scope: usize, depth: usize) -> (result:
    Result<Object, EvalError>)
    requires
        env_wf(old(env)@),
        scope < old(env)@.len(),
    ensures
        evaluates(
            run_statements(
                statements_view(*stmts),
                0,
                Value::Null,
                old(env)@,
                scope as int,
                depth as nat,
            ),
            result,
            final(env)@,
        ),
        sound(old(env)@, result, final(env)@),
    decreases depth, *stmts, 0nat,
{
    let ghost all = statements_view(*stmts);
    let ghost start = env@;
    let mut val = Object::Null;
    let mut i: usize = 0;
    while i < stmts.len()
        invariant
            i <= stmts.len(),
            all == statements_view(*stmts),
            start == old(env)@,
            start.len() <= env@.len(),
            scope < env@.len(),
            env_wf(env@),
            value_wf(val@, env@.len() as int),
            run_statements(all, 0, Value::Null, start, scope as int, depth as nat)
                == run_statements(all, i as int, val@, env@, scope as int, depth as nat),
        decreases stmts.len() - i,
    {
        assert(all[i as int] == stmts@[i as int]@);
        match &stmts[i] {
            Statement::Let(x, expr) => {
                match eval_let_statement(x.clone(), expr, env, scope, depth) {
                    Ok(value) => {
                        val = value;
                    },
                    Err(error) => {
                        return Err(error);
                    },
                }
            },
            Statement::Return(Some(x)) => {
                return eval_return_statement(x, env, scope, depth);
            },
            Statement::Return(None) => {
                return Ok(Object::Null);
            },
            Statement::Expression(expr) => {
                match eval_expression(expr, env, scope, depth) {
                    Ok(value) => {
                        val = value;
                    },
                    Err(error) => {
                        return Err(error);
                    },
                }
            },
        }
        i = i + 1;
    }
    Ok(val)
}

/// Evaluates a block: runs its statements in the scope `scope`.
pub fn eval_block_statement(
    block: &BlockStatement,
    env: &mut EnviromentVariables,
    scope: usize,
    depth: usize,
) -> (result: Result<Object, EvalError>)
    requires
        env_wf(old(env)@),
        scope < old(env)@.len(),
    ensures
        evaluates(
            run_statements(block@, 0, Value::Null, old(env)@, scope as int, depth as nat),
            result,
            final(env)@,
        ),
        sound(old(env)@, result, final(env)@),
    decreases depth, *block, 1nat,
{
    run(&block.stmts, env, scope, depth)
}

/// Evaluates a conditional: the condition, which must be a boolean, and
/// then the block that it selects; `Null` where it selects none.
pub fn eval_if_expression(
    expr: &Expression,
    true_block: &BlockStatement,
    false_block: &Option<Box<BlockStatement>>,
    env: &mut EnviromentVariables,
    scope: usize,
    depth: usize,
) -> (result: Result<Object, EvalError>)
    requires
        env_wf(old(env)@),
        scope < old(env)@.len(),
    ensures
        evaluates(
            semantics::eval_expression(
                (Expression::If(Box::new(*expr), Box::new(*true_block), *false_block))@,
                old(env)@,
                scope as int,
                depth as nat,
            ),
            result,
            final(env)@,
        ),
        sound(old(env)@, result, final(env)@),
    decreases depth, Expression::If(Box::new(*expr), Box::new(*true_block), *false_block), 0nat,
{
    proof {
        let whole = Expression::If(Box::new(*expr), Box::new(*true_block), *false_block);
        assert(*whole->If_0 == *expr);
        assert(*whole->If_1 == *true_block);
        assert(whole->If_2 == *false_block);
        assert(decreases_to!(whole => *expr));
        assert(decreases_to!(whole => *true_block));
        if false_block is Some {
            assert(decreases_to!(whole => whole->If_2));
            assert(decreases_to!(whole => *false_block->Some_0));
        }
    }
    let expr_obj = match eval_expression(expr, env, scope, depth) {
        Ok(value) => value,
        Err(error) => {
            return Err(error);
        },
    };
    let expr_val = match expr_obj {
        Object::Bool(v) => v,
        _ => {
            return Err(EvalError::TypeMismatch);
        },
    };
    if expr_val {
        eval_block_statement(true_block, env, scope, depth)
    } else {
        match false_block {
            Some(block) => eval_block_statement(block, env, scope, depth),
            None => Ok(Object::Null),
        }
    }
}

/// Calls a function made in the scope `captured`, which must get as many
/// arguments as it has parameters: makes a new scope inside that scope,
/// binds each parameter to its argument there, and evaluates the body in
/// it.
pub fn eval_user_defined_function_call(
    func_params: &Vec<String>,
    param_objs: &Vec<Object>,
    func_block: &BlockStatement,
    env: &mut EnviromentVariables,
    captured: usize,
    depth: usize,
) -> (result: Result<Object, EvalError>)
    requires
        env_wf(old(env)@),
        captured < old(env)@.len(),
        values_wf(objects_view(*param_objs), old(env)@.len() as int),
    ensures
        evaluates(
            call_function(
                names_view(*func_params),
                objects_view(*param_objs),
                func_block@,
                captured as int,
                old(env)@,
                depth as nat,
            ),
            result,
            final(env)@,
        ),
        sound(old(env)@, result, final(env)@),
    decreases depth, *func_block, 2nat,
{
    if param_objs.len() != func_params.len() {
        return Err(EvalError::ArityMismatch);
    }
    let ghost names = names_view(*func_params);
    let ghost values = objects_view(*param_objs);
    let ghost inner = extended(env@, captured as int);
    proof {
        lemma_extended_wf(env@, captured as int);
        assert forall|i: int| 0 <= i < values.len() implies value_wf(
            #[trigger] values[i],
            inner.len() as int,
        ) by {
            lemma_value_wf_grows(values[i], env@.len() as int, inner.len() as int);
        }
    }
    let child = env.extend(captured);
    let mut idx: usize = 0;
    while idx < param_objs.len()
        invariant
            idx <= param_objs.len(),
            func_params.len() == param_objs.len(),
            names == names_view(*func_params),
            values == objects_view(*param_objs),
            inner == extended(old(env)@, captured as int),
            child == old(env)@.len(),
            env@.len() == old(env)@.len() + 1,
            env@ == bind_all(inner, child as int, names, values, idx as int),
            env_wf(env@),
            values_wf(values, env@.len() as int),
        decreases param_objs.len() - idx,
    {
        proof {
            lemma_bind_wf(env@, child as int, names[idx as int], values[idx as int]);
        }
        env.set(child, func_params[idx].as_str(), clone_object(&param_objs[idx]));
        idx = idx + 1;
    }
    eval_block_statement(func_block, env, child, depth)
}

/// Evaluates the expressions of a list in order.
pub fn eval_function_parameters(
    params: &Vec<Expression>,
    env: &mut EnviromentVariables,
    scope: usize,
    depth: usize,
) -> (result: Result<Vec<Object>, EvalError>)
    requires
        env_wf(old(env)@),
        scope < old(env)@.len(),
    ensures
        ({
            let expected = eval_expressions(
                expressions_view(*params),
                0,
                Seq::empty(),
                old(env)@,
                scope as int,
                depth as nat,
            );
            expected.result == results_view(result) && expected.env == final(env)@
        }),
        env_wf(final(env)@),
        old(env)@.len() <= final(env)@.len(),
        result matches Ok(values) ==> values_wf(objects_view(values), final(env)@.len() as int),
    decreases depth, *params, 0nat,
{
    let ghost all = expressions_view(*params);
    let ghost start = env@;
    let mut param_objs: Vec<Object> = Vec::new();
    let mut i: usize = 0;
    proof {
        assert(objects_view(param_objs) =~= Seq::<Value>::empty());
    }
    while i < params.len()
        invariant
            i <= params.len(),
            all == expressions_view(*params),
            start == old(env)@,
            start.len() <= env@.len(),
            scope < env@.len(),
            env_wf(env@),
            values_wf(objects_view(param_objs), env@.len() as int),
            eval_expressions(all, 0, Seq::empty(), start, scope as int, depth as nat)
                == eval_expressions(
                all,
                i as int,
                objects_view(param_objs),
                env@,
                scope as int,
                depth as nat,
            ),
        decreases params.len() - i,
    {
        let ghost done = objects_view(param_objs);
        let ghost scopes = env@.len() as int;
        let param_obj = match eval_expression(&params[i], env, scope, depth) {
            Ok(value) => value,
            Err(error) => {
                return Err(error);
            },
        };
        let ghost value = param_obj@;
        param_objs.push(param_obj);
        proof {
            assert(objects_view(param_objs) =~= done.push(value));
            assert forall|j: int| 0 <= j < done.len() + 1 implies value_wf(
                #[trigger] objects_view(param_objs)[j],
                env@.len() as int,
            ) by {
                if j < done.len() {
                    lemma_value_wf_grows(done[j], scopes, env@.len() as int);
                }
            }
        }
        i = i + 1;
    }
    Ok(param_objs)
}

/// Evaluates an array literal: its members in order.
pub fn eval_array_literal(
    member_expr: &Vec<Expression>,
    env: &mut EnviromentVariables,
    scope: usize,
    depth: usize,
) -> (result: Result<Object, EvalError>)
    requires
        env_wf(old(env)@),
        scope < old(env)@.len(),
    ensures
        evaluates(
            semantics::eval_expression(
                ExpressionView::ArrayLiteral(expressions_view(*member_expr)),
                old(env)@,
                scope as int,
                depth as nat,
            ),
            result,
            final(env)@,
        ),
        sound(old(env)@, result, final(env)@),
    decreases depth, Expression::ArrayLiteral(*member_expr), 0nat,
{
    proof {
        let whole = Expression::ArrayLiteral(*member_expr);
        assert(whole->ArrayLiteral_0 == *member_expr);
        assert(decreases_to!(whole => *member_expr));
    }
    match eval_function_parameters(member_expr, env, scope, depth) {
        Ok(members) => Ok(Object::Array(members)),
        Err(error) => Err(error),
    }
}

/// Evaluates a hash literal: for each pair in order the key, then the
/// value, which is put under the key.
pub fn eval_dict_literal(
    dict_expr: &Vec<(Expression, Expression)>,
    env: &mut EnviromentVariables,
    scope: usize,
    depth: usize,
) -> (result: Result<Object, EvalError>)
    requires
        env_wf(old(env)@),
        scope < old(env)@.len(),
    ensures
        evaluates(
            semantics::eval_expression(
                ExpressionView::HashMapLiteral(pairs_view(*dict_expr)),
                old(env)@,
                scope as int,
                depth as nat,
            ),
            result,
            final(env)@,
        ),
        sound(old(env)@, result, final(env)@),
    decreases depth, Expression::HashMapLiteral(*dict_expr), 0nat,
{
    proof {
        let whole = Expression::HashMapLiteral(*dict_expr);
        assert(whole->HashMapLiteral_0 == *dict_expr);
        assert(decreases_to!(whole => *dict_expr));
    }
    let ghost all = pairs_view(*dict_expr);
    let ghost start = env@;
    let mut dict: Vec<(Object, Object)> = Vec::new();
    let mut i: usize = 0;
    proof {
        assert(entries_view(dict) =~= Seq::<(Value, Value)>::empty());
    }
    while i < dict_expr.len()
        invariant
            i <= dict_expr.len(),
            all == pairs_view(*dict_expr),
            start == old(env)@,
            start.len() <= env@.len(),
            scope < env@.len(),
            decreases_to!(Expression::HashMapLiteral(*dict_expr) => *dict_expr),
            env_wf(env@),
            value_wf(Value::HashMap(entries_view(dict)), env@.len() as int),
            eval_pairs(all, 0, Seq::empty(), start, scope as int, depth as nat) == eval_pairs(
                all,
                i as int,
                entries_view(dict),
                env@,
                scope as int,
                depth as nat,
            ),
        decreases dict_expr.len() - i,
    {
        proof {
            assert(decreases_to!(*dict_expr => dict_expr@[i as int]));
            assert(decreases_to!(dict_expr@[i as int] => dict_expr@[i as int].0));
            assert(decreases_to!(dict_expr@[i as int] => dict_expr@[i as int].1));
        }
        let ghost scopes = env@.len() as int;
        let key = match eval_expression(&dict_expr[i].0, env, scope, depth) {
            Ok(value) => value,
            Err(error) => {
                return Err(error);
            },
        };
        let val = match eval_expression(&dict_expr[i].1, env, scope, depth) {
            Ok(value) => value,
            Err(error) => {
                return Err(error);
            },
        };
        proof {
            lemma_value_wf_grows(
                Value::HashMap(entries_view(dict)),
                scopes,
                env@.len() as int,
            );
            if is_hashable(key@) {
                lemma_hash_insert_wf(entries_view(dict), key@, val@, env@.len() as int);
            }
        }
        match hash_put(&mut dict, key, val) {
            Ok(_) => {},
            Err(error) => {
                return Err(error);
            },
        }
        i = i + 1;
    }
    Ok(Object::HashMap(dict))
}

/// Evaluates a subscript: the container, then the index, then the lookup.
pub fn eval_index(
    container_expr: &Expression,
    idx_expr: &Expression,
    env: &mut EnviromentVariables,
    scope: usize,
    depth: usize,
) -> (result: Result<Object, EvalError>)
    requires
        env_wf(old(env)@),
        scope < old(env)@.len(),
    ensures
        evaluates(
            semantics::eval_expression(
                ExpressionView::Index(Box::new(container_expr@), Box::new(idx_expr@)),
                old(env)@,
                scope as int,
                depth as nat,
            ),
            result,
            final(env)@,
        ),
        sound(old(env)@, result, final(env)@),
    decreases depth, Expression::Index(Box::new(*container_expr), Box::new(*idx_expr)), 0nat,
{
    proof {
        let whole = Expression::Index(Box::new(*container_expr), Box::new(*idx_expr));
        assert(*whole->Index_0 == *container_expr);
        assert(*whole->Index_1 == *idx_expr);
        assert(decreases_to!(whole => *container_expr));
        assert(decreases_to!(whole => *idx_expr));
    }
    let container = match eval_expression(container_expr, env, scope, depth) {
        Ok(value) => value,
        Err(error) => {
            return Err(error);
        },
    };
    let ghost before_index = env@.len() as int;
    let idx = match eval_expression(idx_expr, env, scope, depth) {
        Ok(value) => value,
        Err(error) => {
            return Err(error);
        },
    };
    proof {
        lemma_value_wf_grows(container@, before_index, env@.len() as int);
        lemma_index_value_wf(container@, idx@, env@.len() as int);
    }
    match container {
        Object::Array(arr) => eval_arr_idx(&arr, &idx),
        Object::HashMap(dict) => eval_dict_idx(&dict, &idx),
        _ => Err(EvalError::TypeMismatch),
    }
}

/// Evaluates a call: the callee, then the arguments in order, then the
/// function on them. The call of a function of the language is one more
/// nested call, for which `depth` must have room.
pub fn eval_function_call(
    func_expr: &Expression,
    parameters: &Vec<Expression>,
    env: &mut EnviromentVariables,
    scope: usize,
    depth: usize,
) -> (result: Result<Object, EvalError>)
    requires
        env_wf(old(env)@),
        scope < old(env)@.len(),
    ensures
        evaluates(
            semantics::eval_expression(
                ExpressionView::Call(Box::new(func_expr@), expressions_view(*parameters)),
                old(env)@,
                scope as int,
                depth as nat,
            ),
            result,
            final(env)@,
        ),
        sound(old(env)@, result, final(env)@),
    decreases depth, Expression::Call(Box::new(*func_expr), *parameters), 0nat,
{
    proof {
        let whole = Expression::Call(Box::new(*func_expr), *parameters);
        assert(*whole->Call_0 == *func_expr);
        assert(whole->Call_1 == *parameters);
        assert(decreases_to!(whole => *func_expr));
        assert(decreases_to!(whole => *parameters));
    }
    let func_obj = match eval_expression(func_expr, env, scope, depth) {
        Ok(value) => value,
        Err(error) => {
            return Err(error);
        },
    };
    let ghost before_arguments = env@.len() as int;
    let param_objs = match eval_function_parameters(parameters, env, scope, depth) {
        Ok(values) => values,
        Err(error) => {
            return Err(error);
        },
    };
    proof {
        lemma_value_wf_grows(func_obj@, before_arguments, env@.len() as int);
        lemma_builtin_result_wf(func_obj@, objects_view(param_objs), env@.len() as int);
    }
    match &func_obj {
        Object::FunctionLiteral(params, block, func_env) => {
            if depth == 0 {
                return Err(EvalError::ResourceExhausted);
            }
            eval_user_defined_function_call(params, &param_objs, block, env, *func_env, depth - 1)
        },
        Object::BuiltInFunction(_) => eval_builtin(&func_obj, &param_objs),
        _ => Err(EvalError::TypeMismatch),
    }
}

/// Evaluates an expression.
pub fn eval_expression(
    expr: &Expression,
    env: &mut EnviromentVariables,
    scope: usize,
    depth: usize,
) -> (result: Result<Object, EvalError>)
    requires
        env_wf(old(env)@),
        scope < old(env)@.len(),
    ensures
        evaluates(
            semantics::eval_expression(expr@, old(env)@, scope as int, depth as nat),
            result,
            final(env)@,
        ),
        sound(old(env)@, result, final(env)@),
    decreases depth, *expr, 1nat,
{
    match expr {
        Expression::IntegerLiteral(i) => Ok(Object::Integer(*i)),
        Expression::Identifier(_s) => {
            proof {
                lemma_identifier_value_wf(env@, scope as int, _s@);
            }
            eval_identifier(expr, env, scope)
        },
        Expression::String(s) => Ok(Object::String(s.clone())),
        Expression::Bool(b) => Ok(Object::Bool(*b)),
        Expression::Prefix(prefix, operand) => eval_prefix_expression(
            prefix,
            operand,
            env,
            scope,
            depth,
        ),
        Expression::Infix(infix, left, right) => eval_infix_expression(
            infix,
            left,
            right,
            env,
            scope,
            depth,
        ),
        Expression::If(condition, true_block, false_block) => eval_if_expression(
            condition,
            true_block,
            false_block,
            env,
            scope,
            depth,
        ),
        Expression::ArrayLiteral(arr) => eval_array_literal(arr, env, scope, depth),
        Expression::HashMapLiteral(dict) => eval_dict_literal(dict, env, scope, depth),
        Expression::Index(arr, idx) => eval_index(arr, idx, env, scope, depth),
        Expression::FunctionLiteral(params, block) => Ok(
            Object::FunctionLiteral(clone_names(params), clone_block(block), scope),
        ),
        Expression::Call(func, params) => eval_function_call(func, params, env, scope, depth),
    }
}

/// Evaluates a `let` statement: the expression, whose value is then bound
/// to the name in the scope `scope`. The statement itself has the value
/// `Null`.
pub fn eval_let_statement(
    identifier: String,
    expr: &Expression,
    env: &mut EnviromentVariables,
    scope: usize,
    depth: usize,
) -> (result: Result<Object, EvalError>)
    requires
        env_wf(old(env)@),
        scope < old(env)@.len(),
    ensures
        ({
            let bound = semantics::eval_expression(
                expr@,
                old(env)@,
                scope as int,
                depth as nat,
            );
            match bound.result {
                Ok(value) => {
                    &&& result_view(result) == Ok::<Value, EvalError>(Value::Null)
                    &&& final(env)@ == bind(bound.env, scope as int, identifier@, value)
                },
                Err(error) => {
                    &&& result_view(result) == Err::<Value, EvalError>(error)
                    &&& final(env)@ == bound.env
                },
            }
        }),
        sound(old(env)@, result, final(env)@),
    decreases depth, *expr, 2nat,
{
    let expr_val = match eval_expression(expr, env, scope, depth) {
        Ok(value) => value,
        Err(error) => {
            return Err(error);
        },
    };
    proof {
        lemma_bind_wf(env@, scope as int, identifier@, expr_val@);
    }
    env.set(scope, identifier.as_str(), expr_val);
    Ok(Object::Null)
}

/// Evaluates the expression of a `return` statement.
pub fn eval_return_statement(
    expr: &Expression,
    env: &mut EnviromentVariables,
    scope: usize,
    depth: usize,
) -> (result: Result<Object, EvalError>)
    requires
        env_wf(old(env)@),
        scope < old(env)@.len(),
    ensures
        evaluates(
            semantics::eval_expression(expr@, old(env)@, scope as int, depth as nat),
            result,
            final(env)@,
        ),
        sound(old(env)@, result, final(env)@),
    decreases depth, *expr, 2nat,
{
    eval_expression(expr, env, scope, depth)
}

/// Evaluates a program: runs its statements in the root scope.
pub fn eval_program(program: &Program, env: &mut EnviromentVariables) -> (result: Result<
    Object,
    EvalError,
>)
    requires
        env_wf(old(env)@),
    ensures
        evaluates(semantics::eval_program(program@, old(env)@), result, final(env)@),
        sound(old(env)@, result, final(env)@),
{
    run(&program.stmts, env, 0, MAX_CALL_DEPTH)
}

} // verus!
