use crimson::ast::{BlockStatement, Expression, Statement};
use crimson::enviroment::EnviromentVariables;
use crimson::evaluator::{
    eval_arr_idx, eval_array_literal, eval_block_statement, eval_dict_idx, eval_dict_literal,
    eval_expression, eval_function_call, eval_function_parameters, eval_identifier,
    eval_if_expression, eval_index, eval_infix, eval_infix_expression, eval_let_statement,
    eval_prefix, eval_prefix_expression, eval_return_statement, eval_user_defined_function_call,
};
use crimson::ast::{Infix, Prefix};
use crimson::inbuilt::{eval_builtin, get_builtin};
use crimson::interpreter::{evaluate, Failure, Session};
use crimson::lexer::{LexError, Token};
use crimson::object::{hash_lookup, hash_put, hashable, Object};
use crimson::semantics::EvalError;

fn value_of(input: &str) -> Object {
    let mut env = EnviromentVariables::new();
    evaluate(input, &mut env).unwrap()
}

fn text(s: &str) -> Object {
    Object::String(String::from(s))
}

fn name(s: &str) -> Expression {
    Expression::Identifier(String::from(s))
}

#[test]
fn evaluate_gives_the_value_of_a_text() {
    assert_eq!(value_of("let a = 2; a * 21"), Object::Integer(42));
    assert_eq!(value_of(""), Object::Null);
}

#[test]
fn evaluate_names_the_stage_that_failed() {
    let mut env = EnviromentVariables::new();
    match evaluate("let a = 1 $", &mut env) {
        Err(Failure::Lexing(error)) => assert_eq!(error, LexError::IllegalCharacter('$', 10)),
        _ => panic!("expected a lexing failure"),
    }
    match evaluate("let a = ;", &mut env) {
        Err(Failure::Parsing(error)) => {
            assert_eq!(error.token, Token::Semicolon);
            assert_eq!(error.position, 3);
        }
        _ => panic!("expected a parsing failure"),
    }
    match evaluate("a", &mut env) {
        Err(Failure::Evaluation(error)) => assert_eq!(error, EvalError::UndefinedIdentifier),
        _ => panic!("expected an evaluation failure"),
    }
    assert_eq!(env.scope_count(), 1);
}

#[test]
fn a_text_that_fails_before_evaluation_binds_nothing() {
    let mut env = EnviromentVariables::new();
    assert!(evaluate("let a = 1; let b = ;", &mut env).is_err());
    assert!(evaluate("let c = 1; #", &mut env).is_err());
    assert_eq!(env.get(0, "a"), None);
    assert_eq!(env.get(0, "c"), None);
}

#[test]
fn a_session_keeps_its_bindings() {
    let mut env = EnviromentVariables::new();
    assert_eq!(evaluate("let f = fn(x) { x + 1 };", &mut env).unwrap(), Object::Null);
    assert_eq!(evaluate("f(f(1))", &mut env).unwrap(), Object::Integer(3));
    assert_eq!(evaluate("1 +", &mut env).is_err(), true);
    assert_eq!(evaluate("f(10)", &mut env).unwrap(), Object::Integer(11));
}

#[test]
fn new_environment_has_only_the_root() {
    let env = EnviromentVariables::new();
    assert_eq!(env.scope_count(), 1);
    assert_eq!(env.get(0, "x"), None);
    assert_eq!(env.get(7, "x"), None);
}

#[test]
fn set_then_get() {
    let mut env = EnviromentVariables::new();
    env.set(0, "x", Object::Integer(1));
    env.set(0, "y", text("why"));
    assert_eq!(env.get(0, "x"), Some(Object::Integer(1)));
    assert_eq!(env.get(0, "y"), Some(text("why")));
    assert_eq!(env.get(0, "z"), None);
    env.set(0, "x", Object::Integer(2));
    assert_eq!(env.get(0, "x"), Some(Object::Integer(2)));
    assert_eq!(env.get(0, "y"), Some(text("why")));
}

#[test]
fn inner_scopes_see_outward_and_not_the_other_way() {
    let mut env = EnviromentVariables::new();
    env.set(0, "x", Object::Integer(1));
    let child = env.extend(0);
    assert_eq!(child, 1);
    assert_eq!(env.scope_count(), 2);
    let grandchild = env.extend(child);
    assert_eq!(grandchild, 2);
    let sibling = env.extend(0);
    assert_eq!(sibling, 3);

    env.set(child, "y", Object::Integer(2));
    env.set(grandchild, "x", Object::Integer(3));
    assert_eq!(env.get(grandchild, "x"), Some(Object::Integer(3)));
    assert_eq!(env.get(grandchild, "y"), Some(Object::Integer(2)));
    assert_eq!(env.get(child, "x"), Some(Object::Integer(1)));
    assert_eq!(env.get(0, "y"), None);
    assert_eq!(env.get(sibling, "y"), None);
    assert_eq!(env.get(sibling, "x"), Some(Object::Integer(1)));

    env.set(0, "late", Object::Bool(true));
    assert_eq!(env.get(grandchild, "late"), Some(Object::Bool(true)));
}

#[test]
fn text_of_values() {
    assert_eq!(value_of("5").to_string(), "5");
    assert_eq!(value_of("-5").to_string(), "-5");
    assert_eq!(value_of("true").to_string(), "true");
    assert_eq!(value_of("1 > 2").to_string(), "false");
    assert_eq!(value_of("\"a\" + \"b\"").to_string(), "\"ab\"");
    assert_eq!(value_of("let x = 1;").to_string(), "NULL");
    assert_eq!(value_of("[]").to_string(), "[]");
    assert_eq!(value_of("[1, \"a\", [true, 2]]").to_string(), "[1,\"a\",[true,2]]");
    assert_eq!(value_of("{}").to_string(), "{}");
    assert_eq!(
        value_of("{1: \"a\", \"b\": [2], 3: {4: 5}}").to_string(),
        "{1:\"a\",\"b\":[2],3:{4:5}}"
    );
    assert_eq!(value_of("len").to_string(), "len");
    assert_eq!(value_of("fn(x, y) { x + y }").to_string(), "fn(x,y){{(x + y);}}");
    assert_eq!(value_of("fn() {}").to_string(), "fn(){{}}");
}

#[test]
fn copies_of_values_are_equal() {
    let value = value_of("[1, \"a\", {1: fn(x) { x }}, len, true, if (false) {1}]");
    assert_eq!(value.clone(), value);
}

#[test]
fn hash_entries() {
    let mut entries: Vec<(Object, Object)> = vec![];
    assert_eq!(hash_put(&mut entries, Object::Integer(1), text("one")), Ok(()));
    assert_eq!(hash_put(&mut entries, text("1"), text("text")), Ok(()));
    assert_eq!(hash_put(&mut entries, Object::Integer(2), text("two")), Ok(()));
    assert_eq!(hash_lookup(&entries, &Object::Integer(2)), Ok(text("two")));
    assert_eq!(hash_lookup(&entries, &text("1")), Ok(text("text")));
    assert_eq!(hash_lookup(&entries, &Object::Integer(3)), Ok(Object::Null));
    assert_eq!(
        hash_lookup(&entries, &Object::Bool(true)),
        Err(EvalError::UnhashableKey)
    );
    assert_eq!(hash_put(&mut entries, Object::Integer(1), text("uno")), Ok(()));
    assert_eq!(
        hash_put(&mut entries, Object::Null, text("nothing")),
        Err(EvalError::UnhashableKey)
    );
    assert_eq!(
        entries,
        vec![
            (Object::Integer(1), text("uno")),
            (text("1"), text("text")),
            (Object::Integer(2), text("two")),
        ]
    );
    assert!(hashable(&Object::Integer(0)));
    assert!(hashable(&text("")));
    assert!(!hashable(&Object::Bool(true)));
    assert!(!hashable(&Object::Null));
    assert!(!hashable(&Object::Array(vec![])));
}

#[test]
fn built_in_functions() {
    assert_eq!(
        get_builtin("len"),
        Some(Object::BuiltInFunction(String::from("len")))
    );
    assert_eq!(
        get_builtin("print"),
        Some(Object::BuiltInFunction(String::from("print")))
    );
    assert_eq!(get_builtin("length"), None);
    assert_eq!(get_builtin(""), None);

    let len = Object::BuiltInFunction(String::from("len"));
    assert_eq!(eval_builtin(&len, &vec![text("four")]), Ok(Object::Integer(4)));
    assert_eq!(
        eval_builtin(&len, &vec![Object::Array(vec![Object::Null, Object::Null])]),
        Ok(Object::Integer(2))
    );
    assert_eq!(eval_builtin(&len, &vec![]), Err(EvalError::ArityMismatch));
    assert_eq!(
        eval_builtin(&len, &vec![Object::Null]),
        Err(EvalError::TypeMismatch)
    );
    let unknown = Object::BuiltInFunction(String::from("nope"));
    assert_eq!(
        eval_builtin(&unknown, &vec![]),
        Err(EvalError::UndefinedIdentifier)
    );
    assert_eq!(
        eval_builtin(&Object::Integer(1), &vec![]),
        Err(EvalError::TypeMismatch)
    );
}

#[test]
fn operators_on_values() {
    assert_eq!(
        eval_infix(&Infix::Plus, Object::Integer(2), Object::Integer(3)),
        Ok(Object::Integer(5))
    );
    assert_eq!(
        eval_infix(&Infix::Minus, Object::Integer(2), Object::Integer(3)),
        Ok(Object::Integer(-1))
    );
    assert_eq!(
        eval_infix(&Infix::Asterisk, Object::Integer(-2), Object::Integer(3)),
        Ok(Object::Integer(-6))
    );
    assert_eq!(
        eval_infix(&Infix::Slash, Object::Integer(-9), Object::Integer(2)),
        Ok(Object::Integer(-4))
    );
    assert_eq!(
        eval_infix(&Infix::Slash, Object::Integer(i64::MIN), Object::Integer(-1)),
        Err(EvalError::IntegerOverflow)
    );
    assert_eq!(
        eval_infix(&Infix::Asterisk, Object::Integer(i64::MIN), Object::Integer(-1)),
        Err(EvalError::IntegerOverflow)
    );
    assert_eq!(
        eval_infix(&Infix::Eq, Object::Integer(2), Object::Integer(2)),
        Ok(Object::Bool(true))
    );
    assert_eq!(
        eval_infix(&Infix::NotEq, Object::Integer(2), Object::Integer(2)),
        Ok(Object::Bool(false))
    );
    assert_eq!(
        eval_infix(&Infix::Lt, Object::Integer(1), Object::Integer(2)),
        Ok(Object::Bool(true))
    );
    assert_eq!(
        eval_infix(&Infix::Gt, Object::Integer(1), Object::Integer(2)),
        Ok(Object::Bool(false))
    );
    assert_eq!(
        eval_infix(&Infix::LBracket, Object::Integer(1), Object::Integer(2)),
        Err(EvalError::TypeMismatch)
    );
    assert_eq!(
        eval_infix(&Infix::Plus, text("a"), text("b")),
        Ok(text("ab"))
    );
    assert_eq!(
        eval_infix(&Infix::Plus, Object::Null, Object::Null),
        Err(EvalError::TypeMismatch)
    );
    assert_eq!(
        eval_prefix(&Prefix::Minus, &Object::Integer(3)),
        Ok(Object::Integer(-3))
    );
    assert_eq!(
        eval_prefix(&Prefix::Minus, &Object::Integer(i64::MIN)),
        Err(EvalError::IntegerOverflow)
    );
    assert_eq!(
        eval_prefix(&Prefix::Bang, &Object::Bool(false)),
        Ok(Object::Bool(true))
    );
    assert_eq!(
        eval_prefix(&Prefix::Bang, &Object::Null),
        Err(EvalError::TypeMismatch)
    );
}

#[test]
fn subscripts_of_values() {
    let array = vec![Object::Integer(10), Object::Integer(20)];
    assert_eq!(eval_arr_idx(&array, &Object::Integer(1)), Ok(Object::Integer(20)));
    assert_eq!(
        eval_arr_idx(&array, &Object::Integer(2)),
        Err(EvalError::IndexOutOfBounds)
    );
    assert_eq!(
        eval_arr_idx(&array, &Object::Integer(i64::MIN)),
        Err(EvalError::IndexOutOfBounds)
    );
    assert_eq!(
        eval_arr_idx(&array, &Object::Integer(i64::MAX)),
        Err(EvalError::IndexOutOfBounds)
    );
    assert_eq!(eval_arr_idx(&array, &text("1")), Err(EvalError::TypeMismatch));
    let hash = vec![(text("k"), Object::Integer(1))];
    assert_eq!(eval_dict_idx(&hash, &text("k")), Ok(Object::Integer(1)));
    assert_eq!(eval_dict_idx(&hash, &text("q")), Ok(Object::Null));
    assert_eq!(
        eval_dict_idx(&hash, &Object::Null),
        Err(EvalError::UnhashableKey)
    );
}

#[test]
fn evaluator_functions_in_a_scope() {
    let mut env = EnviromentVariables::new();
    env.set(0, "x", Object::Integer(4));
    let inner = env.extend(0);
    env.set(inner, "y", Object::Integer(6));

    assert_eq!(eval_identifier(&name("x"), &env, inner), Ok(Object::Integer(4)));
    assert_eq!(
        eval_identifier(&name("y"), &env, 0),
        Err(EvalError::UndefinedIdentifier)
    );
    assert_eq!(
        eval_identifier(&name("print"), &env, 0),
        Ok(Object::BuiltInFunction(String::from("print")))
    );
    assert_eq!(
        eval_identifier(&Expression::Bool(true), &env, 0),
        Err(EvalError::TypeMismatch)
    );

    assert_eq!(
        eval_infix_expression(&Infix::Plus, &name("x"), &name("y"), &mut env, inner, 5),
        Ok(Object::Integer(10))
    );
    assert_eq!(
        eval_prefix_expression(&Prefix::Minus, &name("x"), &mut env, inner, 5),
        Ok(Object::Integer(-4))
    );
    assert_eq!(
        eval_expression(&name("y"), &mut env, inner, 0),
        Ok(Object::Integer(6))
    );
    assert_eq!(
        eval_return_statement(&name("x"), &mut env, 0, 0),
        Ok(Object::Integer(4))
    );
    assert_eq!(
        eval_let_statement(String::from("z"), &name("y"), &mut env, inner, 0),
        Ok(Object::Null)
    );
    assert_eq!(env.get(inner, "z"), Some(Object::Integer(6)));
    assert_eq!(env.get(0, "z"), None);

    let list = vec![name("x"), name("y"), Expression::IntegerLiteral(1)];
    assert_eq!(
        eval_function_parameters(&list, &mut env, inner, 0),
        Ok(vec![Object::Integer(4), Object::Integer(6), Object::Integer(1)])
    );
    assert_eq!(
        eval_function_parameters(&list, &mut env, 0, 0),
        Err(EvalError::UndefinedIdentifier)
    );
    assert_eq!(
        eval_array_literal(&list, &mut env, inner, 0),
        Ok(Object::Array(vec![
            Object::Integer(4),
            Object::Integer(6),
            Object::Integer(1)
        ]))
    );
    let pairs = vec![(name("x"), name("y"))];
    assert_eq!(
        eval_dict_literal(&pairs, &mut env, inner, 0),
        Ok(Object::HashMap(vec![(
            Object::Integer(4),
            Object::Integer(6)
        )]))
    );
    assert_eq!(
        eval_index(
            &Expression::ArrayLiteral(vec![name("x"), name("y")]),
            &Expression::IntegerLiteral(1),
            &mut env,
            inner,
            0
        ),
        Ok(Object::Integer(6))
    );

    let then = BlockStatement {
        stmts: vec![Statement::Expression(Box::new(name("x")))],
    };
    let otherwise = Some(Box::new(BlockStatement {
        stmts: vec![Statement::Expression(Box::new(name("y")))],
    }));
    assert_eq!(
        eval_if_expression(&Expression::Bool(false), &then, &otherwise, &mut env, inner, 0),
        Ok(Object::Integer(6))
    );
    assert_eq!(
        eval_if_expression(&Expression::Bool(true), &then, &otherwise, &mut env, inner, 0),
        Ok(Object::Integer(4))
    );
    assert_eq!(
        eval_if_expression(&Expression::Bool(false), &then, &None, &mut env, inner, 0),
        Ok(Object::Null)
    );
    assert_eq!(
        eval_block_statement(&then, &mut env, 0, 0),
        Ok(Object::Integer(4))
    );
}

#[test]
fn calls_use_up_depth() {
    let mut env = EnviromentVariables::new();
    let body = BlockStatement {
        stmts: vec![Statement::Expression(Box::new(name("a")))],
    };
    let function = Expression::FunctionLiteral(vec![String::from("a")], Box::new(body));
    let arguments = vec![Expression::IntegerLiteral(7)];
    assert_eq!(
        eval_function_call(&function, &arguments, &mut env, 0, 1),
        Ok(Object::Integer(7))
    );
    assert_eq!(env.scope_count(), 2);
    assert_eq!(
        eval_function_call(&function, &arguments, &mut env, 0, 0),
        Err(EvalError::ResourceExhausted)
    );
    assert_eq!(env.scope_count(), 2);
    assert_eq!(
        eval_function_call(&name("len"), &vec![Expression::String(String::from("abc"))], &mut env, 0, 0),
        Ok(Object::Integer(3))
    );
}

#[test]
fn a_call_binds_its_parameters_in_a_new_scope() {
    let mut env = EnviromentVariables::new();
    env.set(0, "a", Object::Integer(1));
    let body = BlockStatement {
        stmts: vec![Statement::Expression(Box::new(Expression::Infix(
            Infix::Plus,
            Box::new(name("a")),
            Box::new(name("b")),
        )))],
    };
    let parameters = vec![String::from("b")];
    let arguments = vec![Object::Integer(10)];
    assert_eq!(
        eval_user_defined_function_call(&parameters, &arguments, &body, &mut env, 0, 3),
        Ok(Object::Integer(11))
    );
    assert_eq!(env.scope_count(), 2);
    assert_eq!(env.get(1, "b"), Some(Object::Integer(10)));
    assert_eq!(env.get(0, "b"), None);
    assert_eq!(
        eval_user_defined_function_call(&parameters, &vec![], &body, &mut env, 0, 3),
        Err(EvalError::ArityMismatch)
    );
    assert_eq!(env.scope_count(), 2);
}

#[test]
fn a_session_interprets_one_text_after_the_other() {
    let mut session = Session::new();
    assert_eq!(session.evaluate("let a = 20;").unwrap(), Object::Null);
    assert_eq!(
        session.evaluate("let twice = fn(x) { x + x };").unwrap(),
        Object::Null
    );
    assert!(session.evaluate("let b = ;").is_err());
    assert!(session.evaluate("let c = 1 / 0;").is_err());
    assert_eq!(session.evaluate("twice(a) + 2").unwrap(), Object::Integer(42));
    match session.evaluate("c") {
        Err(Failure::Evaluation(error)) => assert_eq!(error, EvalError::UndefinedIdentifier),
        _ => panic!("expected an evaluation failure"),
    }
}
