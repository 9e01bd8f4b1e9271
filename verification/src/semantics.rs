//! The meaning of programs: which value an expression has in an
//! environment, and which environment it leaves behind.

use crate::ast::{ExpressionView, Infix, Prefix, StatementView};
use crate::enviroment::{bind, env_wf, extended, lemma_lookup_wf, lookup, ScopeView};
use crate::inbuilt::{builtin_named, builtin_result};
use crate::object::{
    hash_find, hash_get, hash_insert, is_hashable, lemma_hash_find_from, value_wf, Object, Value,
};
use vstd::prelude::*;

verus! {

/// Why an evaluation has no value.
#[derive(Debug, Clone, Copy, PartialEq, Eq, Structural)]
pub enum EvalError {
    /// A name that no scope binds and that is no built-in function.
    UndefinedIdentifier,
    /// An operand, a condition, a callee, a container or an argument of the
    /// wrong kind.
    TypeMismatch,
    /// A call with the wrong number of arguments.
    ArityMismatch,
    /// A hash key that is neither an integer nor a string.
    UnhashableKey,
    /// An array subscript that is negative or not less than the length.
    IndexOutOfBounds,
    /// More nested calls than an evaluation may hold open.
    ResourceExhausted,
    /// An integer result beyond the range of integers.
    IntegerOverflow,
    /// A division by zero.
    DivisionByZero,
}

/// The view of the result of an evaluation.
pub open spec fn result_view(result: Result<Object, EvalError>) -> Result<Value, EvalError> {
    match result {
        Ok(value) => Ok(value@),
        Err(error) => Err(error),
    }
}

/// What an evaluation ends in: a result, and the environment as it then is.
/// An evaluation that fails keeps the bindings made before it failed.
pub struct Outcome<T> {
    pub result: Result<T, EvalError>,
    pub env: Seq<ScopeView>,
}

/// The quotient of a division that rounds toward zero.
pub open spec fn truncated_quotient(a: int, b: int) -> int {
    if a >= 0 && b > 0 {
        a / b
    } else if a < 0 && b < 0 {
        (-a) / (-b)
    } else if a < 0 {
        -((-a) / b)
    } else {
        -(a / (-b))
    }
}

/// An integer as a value, if it is within the range of integers.
pub open spec fn integer_value(i: int) -> Result<Value, EvalError> {
    if i64::MIN <= i <= i64::MAX {
        Ok(Value::Integer(i as i64))
    } else {
        Err(EvalError::IntegerOverflow)
    }
}

/// What a prefix operator makes of its operand: `-` negates an integer, `!`
/// negates a boolean.
pub open spec fn apply_prefix(op: Prefix, operand: Value) -> Result<Value, EvalError> {
    match (op, operand) {
        (Prefix::Minus, Value::Integer(i)) => integer_value(-i),
        (Prefix::Bang, Value::Bool(b)) => Ok(Value::Bool(!b)),
        _ => Err(EvalError::TypeMismatch),
    }
}

/// What an infix operator makes of its operands.
///
/// On two integers: sum, difference, product and the quotient rounded
/// toward zero, each an error where it is beyond the range of integers, the
/// quotient also where the divisor is zero; and the four comparisons. On two
/// strings: `+` joins them.
pub open spec fn apply_infix(op: Infix, left: Value, right: Value) -> Result<Value, EvalError> {
    match (left, right) {
        (Value::Integer(a), Value::Integer(b)) => match op {
            Infix::Plus => integer_value(a + b),
            Infix::Minus => integer_value(a - b),
            Infix::Asterisk => integer_value(a * b),
            Infix::Slash => if b == 0 {
                Err(EvalError::DivisionByZero)
            } else {
                integer_value(truncated_quotient(a as int, b as int))
            },
            Infix::NotEq => Ok(Value::Bool(a != b)),
            Infix::Eq => Ok(Value::Bool(a == b)),
            Infix::Gt => Ok(Value::Bool(a > b)),
            Infix::Lt => Ok(Value::Bool(a < b)),
            Infix::LBracket => Err(EvalError::TypeMismatch),
        },
        (Value::String(a), Value::String(b)) => match op {
            Infix::Plus => Ok(Value::String(a + b)),
            _ => Err(EvalError::TypeMismatch),
        },
        _ => Err(EvalError::TypeMismatch),
    }
}

/// What a subscript gives.
///
/// Of an array, the member at an integer index within the array. Of a hash,
/// the value under an integer or string key, and `Null` where there is no
/// such key.
pub open spec fn index_value(container: Value, index: Value) -> Result<Value, EvalError> {
    match container {
        Value::Array(members) => match index {
            Value::Integer(i) => if 0 <= i < members.len() {
                Ok(members[i as int])
            } else {
                Err(EvalError::IndexOutOfBounds)
            },
            _ => Err(EvalError::TypeMismatch),
        },
        Value::HashMap(entries) => if is_hashable(index) {
            Ok(hash_get(entries, index))
        } else {
            Err(EvalError::UnhashableKey)
        },
        _ => Err(EvalError::TypeMismatch),
    }
}

/// What a name means: its binding in the scope chain, or else the built-in
/// function of that name.
pub open spec fn identifier_value(env: Seq<ScopeView>, scope: int, name: Seq<char>) -> Result<
    Value,
    EvalError,
> {
    match lookup(env, scope, name) {
        Some(value) => Ok(value),
        None => match builtin_named(name) {
            Some(function) => Ok(function),
            None => Err(EvalError::UndefinedIdentifier),
        },
    }
}

/// The environment with each of the first `count` names bound to the value
/// at its place, in order, in the scope `scope`.
pub open spec fn bind_all(
    env: Seq<ScopeView>,
    scope: int,
    names: Seq<Seq<char>>,
    values: Seq<Value>,
    count: int,
) -> Seq<ScopeView>
    decreases count,
{
    if count <= 0 {
        env
    } else {
        bind(
            bind_all(env, scope, names, values, count - 1),
            scope,
            names[count - 1],
            values[count - 1],
        )
    }
}

/// The value of an expression in the scope `scope`, with at most `depth`
/// nested calls.
pub open spec fn eval_expression(
    e: ExpressionView,
    env: Seq<ScopeView>,
    scope: int,
    depth: nat,
) -> Outcome<Value>
    decreases depth, e, 0nat,
{
    match e {
        ExpressionView::IntegerLiteral(i) => Outcome { result: Ok(Value::Integer(i)), env },
        ExpressionView::Identifier(name) => Outcome {
            result: identifier_value(env, scope, name),
            env,
        },
        ExpressionView::String(s) => Outcome { result: Ok(Value::String(s)), env },
        ExpressionView::Bool(b) => Outcome { result: Ok(Value::Bool(b)), env },
        ExpressionView::Prefix(op, operand) => {
            let inner = eval_expression(*operand, env, scope, depth);
            match inner.result {
                Ok(value) => Outcome { result: apply_prefix(op, value), env: inner.env },
                Err(_) => inner,
            }
        },
        ExpressionView::Infix(op, left, right) => {
            let first = eval_expression(*left, env, scope, depth);
            match first.result {
                Ok(left_value) => {
                    let second = eval_expression(*right, first.env, scope, depth);
                    match second.result {
                        Ok(right_value) => Outcome {
                            result: apply_infix(op, left_value, right_value),
                            env: second.env,
                        },
                        Err(_) => second,
                    }
                },
                Err(_) => first,
            }
        },
        ExpressionView::If(condition, then, otherwise) => {
            let test = eval_expression(*condition, env, scope, depth);
            match test.result {
                Ok(Value::Bool(true)) => run_statements(
                    then,
                    0,
                    Value::Null,
                    test.env,
                    scope,
                    depth,
                ),
                Ok(Value::Bool(false)) => match otherwise {
                    Some(block) => run_statements(block, 0, Value::Null, test.env, scope, depth),
                    None => Outcome { result: Ok(Value::Null), env: test.env },
                },
                Ok(_) => Outcome { result: Err(EvalError::TypeMismatch), env: test.env },
                Err(_) => test,
            }
        },
        ExpressionView::ArrayLiteral(members) => {
            let all = eval_expressions(members, 0, Seq::empty(), env, scope, depth);
            match all.result {
                Ok(values) => Outcome { result: Ok(Value::Array(values)), env: all.env },
                Err(error) => Outcome { result: Err(error), env: all.env },
            }
        },
        ExpressionView::HashMapLiteral(pairs) => {
            let all = eval_pairs(pairs, 0, Seq::empty(), env, scope, depth);
            match all.result {
                Ok(entries) => Outcome { result: Ok(Value::HashMap(entries)), env: all.env },
                Err(error) => Outcome { result: Err(error), env: all.env },
            }
        },
        ExpressionView::Index(container, index) => {
            let first = eval_expression(*container, env, scope, depth);
            match first.result {
                Ok(container_value) => {
                    let second = eval_expression(*index, first.env, scope, depth);
                    match second.result {
                        Ok(index_value_) => Outcome {
                            result: index_value(container_value, index_value_),
                            env: second.env,
                        },
                        Err(_) => second,
                    }
                },
                Err(_) => first,
            }
        },
        ExpressionView::FunctionLiteral(parameters, body) => Outcome {
            result: Ok(Value::FunctionLiteral(parameters, body, scope)),
            env,
        },
        ExpressionView::Call(callee, arguments) => {
            let first = eval_expression(*callee, env, scope, depth);
            match first.result {
                Ok(function) => {
                    let all = eval_expressions(
                        arguments,
                        0,
                        Seq::empty(),
                        first.env,
                        scope,
                        depth,
                    );
                    match all.result {
                        Ok(values) => match function {
                            Value::FunctionLiteral(parameters, body, captured) => if depth == 0 {
                                Outcome { result: Err(EvalError::ResourceExhausted), env: all.env }
                            } else {
                                call_function(
                                    parameters,
                                    values,
                                    body,
                                    captured,
                                    all.env,
                                    (depth - 1) as nat,
                                )
                            },
                            Value::BuiltInFunction(_) => Outcome {
                                result: builtin_result(function, values),
                                env: all.env,
                            },
                            _ => Outcome { result: Err(EvalError::TypeMismatch), env: all.env },
                        },
                        Err(error) => Outcome { result: Err(error), env: all.env },
                    }
                },
                Err(_) => first,
            }
        },
    }
}

/// The call of a function made in the scope `captured`, which fails unless
/// there are as many arguments as parameters: the body is run in a new scope
/// inside `captured`, in which each parameter is bound to its argument.
pub open spec fn call_function(
    parameters: Seq<Seq<char>>,
    arguments: Seq<Value>,
    body: Seq<StatementView>,
    captured: int,
    env: Seq<ScopeView>,
    depth: nat,
) -> Outcome<Value>
    decreases depth, body, body.len() + 1,
{
    if arguments.len() != parameters.len() {
        Outcome { result: Err(EvalError::ArityMismatch), env }
    } else {
        let scope = env.len() as int;
        run_statements(
            body,
            0,
            Value::Null,
            bind_all(
                extended(env, captured),
                scope,
                parameters,
                arguments,
                parameters.len() as int,
            ),
            scope,
            depth,
        )
    }
}

/// The values of the expressions from the index `from` on, one after the
/// other, each in the environment that the one before it left behind; `done`
/// holds the values of those before `from`. The first error ends it.
pub open spec fn eval_expressions(
    es: Seq<ExpressionView>,
    from: int,
    done: Seq<Value>,
    env: Seq<ScopeView>,
    scope: int,
    depth: nat,
) -> Outcome<Seq<Value>>
    decreases depth, es, es.len() - from,
{
    if !(0 <= from < es.len()) {
        Outcome { result: Ok(done), env }
    } else {
        let first = eval_expression(es[from], env, scope, depth);
        match first.result {
            Ok(value) => eval_expressions(es, from + 1, done.push(value), first.env, scope, depth),
            Err(error) => Outcome { result: Err(error), env: first.env },
        }
    }
}

/// The entries of a hash literal from the pair at the index `from` on:
/// each key, then its value, are evaluated in order, and the value is put
/// under the key, which must be an integer or a string; `done` holds the
/// entries of the pairs before `from`. The first error ends it.
pub open spec fn eval_pairs(
    pairs: Seq<(ExpressionView, ExpressionView)>,
    from: int,
    done: Seq<(Value, Value)>,
    env: Seq<ScopeView>,
    scope: int,
    depth: nat,
) -> Outcome<Seq<(Value, Value)>>
    decreases depth, pairs, pairs.len() - from,
{
    if !(0 <= from < pairs.len()) {
        Outcome { result: Ok(done), env }
    } else {
        let first = eval_expression(pairs[from].0, env, scope, depth);
        match first.result {
            Ok(key) => {
                let second = eval_expression(pairs[from].1, first.env, scope, depth);
                match second.result {
                    Ok(value) => if is_hashable(key) {
                        eval_pairs(
                            pairs,
                            from + 1,
                            hash_insert(done, key, value),
                            second.env,
                            scope,
                            depth,
                        )
                    } else {
                        Outcome { result: Err(EvalError::UnhashableKey), env: second.env }
                    },
                    Err(error) => Outcome { result: Err(error), env: second.env },
                }
            },
            Err(error) => Outcome { result: Err(error), env: first.env },
        }
    }
}

/// The value of the statements from the index `from` on, run in order;
/// `last` is the value of the statement before `from`.
///
/// A `let` statement binds its name in the scope `scope` and has the value
/// `Null`. A `return` statement ends the run with the value of its
/// expression, or with `Null` if it has none. Past the last statement the
/// run ends with the value of that statement. The first error ends it.
pub open spec fn run_statements(
    stmts: Seq<StatementView>,
    from: int,
    last: Value,
    env: Seq<ScopeView>,
    scope: int,
    depth: nat,
) -> Outcome<Value>
    decreases depth, stmts, stmts.len() - from,
{
    if !(0 <= from < stmts.len()) {
        Outcome { result: Ok(last), env }
    } else {
        match stmts[from] {
            StatementView::Let(name, value) => {
                let bound = eval_expression(value, env, scope, depth);
                match bound.result {
                    Ok(v) => run_statements(
                        stmts,
                        from + 1,
                        Value::Null,
                        bind(bound.env, scope, name, v),
                        scope,
                        depth,
                    ),
                    Err(_) => bound,
                }
            },
            StatementView::Return(Some(value)) => eval_expression(value, env, scope, depth),
            StatementView::Return(None) => Outcome { result: Ok(Value::Null), env },
            StatementView::Expression(value) => {
                let next = eval_expression(value, env, scope, depth);
                match next.result {
                    Ok(v) => run_statements(stmts, from + 1, v, next.env, scope, depth),
                    Err(_) => next,
                }
            },
        }
    }
}

/// The largest number of nested calls that the evaluation of a program may
/// hold open.
///
/// The language itself sets no such number. This one rests on the native
/// stack: the evaluator spends a fixed number of its own stack frames on
/// each nested call of the language, and with 200 of them it stays within
/// the two mebibytes of stack that a thread has by default. Only
/// `eval_program` and what is built on it use the number; every other
/// function of the evaluator takes the depth that its caller chooses.
pub const MAX_CALL_DEPTH: usize = 200;

/// The value of a program: that of its statements, run in the root scope.
pub open spec fn eval_program(program: Seq<StatementView>, env: Seq<ScopeView>) -> Outcome<Value> {
    run_statements(program, 0, Value::Null, env, 0, MAX_CALL_DEPTH as nat)
}

/// Whether every value of a list is sound among `scopes` scopes.
pub open spec fn values_wf(values: Seq<Value>, scopes: int) -> bool {
    forall|i: int| 0 <= i < values.len() ==> value_wf(#[trigger] values[i], scopes)
}

/// What a prefix operator gives is sound.
pub proof fn lemma_apply_prefix_wf(op: Prefix, operand: Value, scopes: int)
    ensures
        apply_prefix(op, operand) matches Ok(value) ==> value_wf(value, scopes),
{
}

/// What an infix operator gives is sound.
pub proof fn lemma_apply_infix_wf(op: Infix, left: Value, right: Value, scopes: int)
    ensures
        apply_infix(op, left, right) matches Ok(value) ==> value_wf(value, scopes),
{
}

/// What a subscript of a sound container gives is sound.
pub proof fn lemma_index_value_wf(container: Value, index: Value, scopes: int)
    requires
        value_wf(container, scopes),
    ensures
        index_value(container, index) matches Ok(value) ==> value_wf(value, scopes),
{
    match container {
        Value::HashMap(entries) => {
            lemma_hash_find_from(entries, index, 0);
            match hash_find(entries, index) {
                Some(i) => {
                    assert(value_wf(entries[i].1, scopes));
                },
                None => {},
            }
        },
        Value::Array(members) => {
            match index {
                Value::Integer(i) => {
                    if 0 <= i < members.len() {
                        assert(value_wf(members[i as int], scopes));
                    }
                },
                _ => {},
            }
        },
        _ => {},
    }
}

/// What a built-in function gives for sound arguments is sound.
pub proof fn lemma_builtin_result_wf(function: Value, args: Seq<Value>, scopes: int)
    requires
        values_wf(args, scopes),
    ensures
        builtin_result(function, args) matches Ok(value) ==> value_wf(value, scopes),
{
    if args.len() == 1 {
        assert(value_wf(args[0], scopes));
    }
}

/// What a name means in a sound environment is sound.
pub proof fn lemma_identifier_value_wf(env: Seq<ScopeView>, scope: int, name: Seq<char>)
    requires
        env_wf(env),
    ensures
        identifier_value(env, scope, name) matches Ok(value) ==> value_wf(
            value,
            env.len() as int,
        ),
{
    lemma_lookup_wf(env, scope, name);
}

} // verus!
