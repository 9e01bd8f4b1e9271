use crimson::enviroment::EnviromentVariables;
use crimson::evaluator::eval_program;
use crimson::lexer::Lexer;
use crimson::object::Object;
use crimson::parser::Parser;
use crimson::semantics::EvalError;

fn run_in(input: &str, env: &mut EnviromentVariables) -> Result<Object, EvalError> {
    let lexer = Lexer::new(input).unwrap();
    let mut parser = Parser::new(lexer);
    let program = parser.parse_program().unwrap();
    eval_program(program.as_ref(), env)
}

fn run(input: &str) -> Result<Object, EvalError> {
    let mut env = EnviromentVariables::new();
    run_in(input, &mut env)
}

fn test_eval_program(input: &str) -> Object {
    run(input).unwrap()
}

struct TestCase<'a> {
    test_str: &'a str,
    val: Object,
}

fn check_test_cases(test_cases: Vec<TestCase>) {
    for test_case in test_cases {
        assert_eq!(test_eval_program(test_case.test_str), test_case.val);
    }
}

#[test]
fn test_eval_integer() {
    let test_cases = vec![TestCase {
        test_str: "10",
        val: Object::Integer(10),
    }];
    check_test_cases(test_cases);
}

#[test]
fn test_eval_boolean() {
    let test_cases = vec![
        TestCase {
            test_str: "true",
            val: Object::Bool(true),
        },
        TestCase {
            test_str: "false",
            val: Object::Bool(false),
        },
    ];
    check_test_cases(test_cases);
}

#[test]
fn test_eval_return() {
    let test_cases = vec![
        TestCase {
            test_str: "return 0;",
            val: Object::Integer(0),
        },
        TestCase {
            test_str: "return;",
            val: Object::Null,
        },
    ];

    check_test_cases(test_cases);
}

#[test]
fn test_eval_prefix() {
    let test_cases = vec![
        TestCase {
            test_str: "!true",
            val: Object::Bool(false),
        },
        TestCase {
            test_str: "!false",
            val: Object::Bool(true),
        },
        TestCase {
            test_str: "-1",
            val: Object::Integer(-1),
        },
    ];

    check_test_cases(test_cases);
}

#[test]
fn test_eval_infix() {
    let test_cases = vec![
        TestCase {
            test_str: "10 > 20",
            val: Object::Bool(false),
        },
        TestCase {
            test_str: "-1 + 0",
            val: Object::Integer(-1),
        },
        TestCase {
            test_str: "5 > 3",
            val: Object::Bool(true),
        },
        TestCase {
            test_str: "4 < 2",
            val: Object::Bool(false),
        },
        TestCase {
            test_str: "5 == 3",
            val: Object::Bool(false),
        },
        TestCase {
            test_str: "4 != 2",
            val: Object::Bool(true),
        },
        TestCase {
            test_str: "(2*2 + 1) == 5",
            val: Object::Bool(true),
        },
        TestCase {
            test_str: "(2 + 3)*2 == 10",
            val: Object::Bool(true),
        },
        TestCase {
            test_str: "\"ab\" + \"cd\"",
            val: Object::String(String::from("abcd")),
        },
        TestCase {
            test_str: "\"ab\" + \"cd\" + \"ef\"",
            val: Object::String(String::from("abcdef")),
        },
    ];

    check_test_cases(test_cases);
}

#[test]
fn test_eval_if_expr() {
    let test_cases = vec![
        TestCase {
            test_str: "if (10 > 20) {20} else {10}",
            val: Object::Integer(10),
        },
        TestCase {
            test_str: "if (21 > 20) {20} else {10}",
            val: Object::Integer(20),
        },
        TestCase {
            test_str: "if (21 > 20) {20} ",
            val: Object::Integer(20),
        },
        TestCase {
            test_str: "if (21 < 20) {20} ",
            val: Object::Null,
        },
        TestCase {
            test_str: "if (21 > 20) {let x = 30; 20} ",
            val: Object::Integer(20),
        },
    ];

    check_test_cases(test_cases);
}

#[test]
fn test_eval_let_statements() {
    let test_cases = vec![
        TestCase {
            test_str: "let x = 10; if (x > 20) {20} else {10}",
            val: Object::Integer(10),
        },
        TestCase {
            test_str: "let y = 20; if (21 > y) {20} else {10}",
            val: Object::Integer(20),
        },
        TestCase {
            test_str: "let z = 30; z*z; ",
            val: Object::Integer(900),
        },
        TestCase {
            test_str: "let a = 30; let b = 40; a + b",
            val: Object::Integer(70),
        },
    ];

    check_test_cases(test_cases);
}

#[test]
fn test_eval_functions() {
    let test_cases = vec![
        TestCase {
            test_str: "let sum = fn(x, y){ x + y;}; \
                                  sum(10, 20);",
            val: Object::Integer(30),
        },
        TestCase {
            test_str: "let square = fn(x){x*x}; \
                                  square(10)",
            val: Object::Integer(100),
        },
        TestCase {
            test_str: "let gt = fn(x, y){ \
                                                if (!(x > y)) {\
                                                        x*x\
                                                } else {\
                                                        y\
                                                };\
                                           }; \
                                  gt(3, 2)",
            val: Object::Integer(2),
        },
        TestCase {
            test_str: "let gt = fn(x, y){ \
                                                if (x > y) \
                                                    {x*x} \
                                                else {\
                                                     y\
                                                };\
                                            }; \
                                  gt(3, 2)",
            val: Object::Integer(9),
        },
        TestCase {
            test_str: "let fact = fn(x) {\
                                                if (x > 1) {\
                                                    x*fact(x - 1);\
                                                } else {\
                                                    x\
                                                };\
                                             }; \
                                  fact(8);",
            val: Object::Integer(40320),
        },
        TestCase {
            test_str: "let sum = fn(x,y){x + y;};\
                                  let sqr = fn(x){let z = sum(x, x); z*z;};\
                                  let z = sum(2, 3) + sqr(2);\
                                  z;",
            val: Object::Integer(21),
        },
        TestCase {
            test_str: "fn(x, y, z){x + y + z}(1, 2, 3);",
            val: Object::Integer(6),
        },
        TestCase {
            test_str: "let a = \"wx\";\
                                let b = \"yz\";\
                                let z = a + b;\
                                z;",
            val: Object::String(String::from("wxyz")),
        },
    ];

    check_test_cases(test_cases);
}

#[test]
fn test_closures() {
    let _test_cases = vec![TestCase {
        test_str: "let adder = fn(x){fn(x,y) { x + y; };};\
                           let a2 = adder(2);
                           a2(10);",
        val: Object::Integer(12),
    }];
}

#[test]
fn test_eval_inbuilt_functions() {
    let test_cases = vec![
        TestCase {
            test_str: "let x = \"cartman\"; len(x)",
            val: Object::Integer(7),
        },
        TestCase {
            test_str: "len(\"cartman\");",
            val: Object::Integer(7),
        },
    ];

    check_test_cases(test_cases);
}

#[test]
fn test_eval_arrays() {
    let test_cases = vec![
        TestCase {
            test_str: "let x = [1, 2, 3]; x[2]",
            val: Object::Integer(3),
        },
        TestCase {
            test_str: "let x = [1, 2, [1, 3]]; x[2][0]",
            val: Object::Integer(1),
        },
        TestCase {
            test_str: "let x = [1, \"abc\", 32, 43]; x[1]",
            val: Object::String(String::from("abc")),
        },
    ];

    check_test_cases(test_cases);
}

#[test]
fn test_eval_dict() {
    let test_cases = vec![
        TestCase {
            test_str: "let x = {1: 2, 2: 3, 3: 4}; x[2]",
            val: Object::Integer(3),
        },
        TestCase {
            test_str: "{1: 2, 2: 3, 3: 4}[2]",
            val: Object::Integer(3),
        },
        TestCase {
            test_str: "let x = {1: 2, \"test\": 3, 3: 4}; x[\"test\"]",
            val: Object::Integer(3),
        },
        TestCase {
            test_str: "let s = 3; let x = {1: 2, \"test\": 3, 3: (2*10)}; x[s]",
            val: Object::Integer(20),
        },
        TestCase {
            test_str: "let s = \"test\"; let x = {1: 2, \"test\": \"res\", 3: (2*10)}; x[s]",
            val: Object::String(String::from("res")),
        },
    ];

    check_test_cases(test_cases);
}

#[test]
fn integer_arithmetic_matches_native_arithmetic() {
    let pairs: [(i64, i64); 8] = [
        (0, 0),
        (7, 3),
        (3, 7),
        (120, 11),
        (1, 1),
        (9223372036854775807, 0),
        (4611686018427387903, 2),
        (3037000499, 3037000499),
    ];
    for (a, b) in pairs {
        assert_eq!(run(&format!("{} + {}", a, b)), Ok(Object::Integer(a + b)));
        assert_eq!(run(&format!("{} - {}", a, b)), Ok(Object::Integer(a - b)));
        assert_eq!(run(&format!("{} * {}", a, b)), Ok(Object::Integer(a * b)));
        assert_eq!(run(&format!("-{} + {}", a, b)), Ok(Object::Integer(-a + b)));
        assert_eq!(run(&format!("-{} - {}", a, b)), Ok(Object::Integer(-a - b)));
        assert_eq!(run(&format!("-{} * -{}", a, b)), Ok(Object::Integer(a * b)));
        if b != 0 {
            assert_eq!(run(&format!("{} / {}", a, b)), Ok(Object::Integer(a / b)));
            assert_eq!(run(&format!("-{} / {}", a, b)), Ok(Object::Integer(-a / b)));
            assert_eq!(run(&format!("{} / -{}", a, b)), Ok(Object::Integer(a / -b)));
            assert_eq!(run(&format!("-{} / -{}", a, b)), Ok(Object::Integer(-a / -b)));
        }
    }
}

#[test]
fn division_rounds_toward_zero() {
    assert_eq!(run("7 / 2"), Ok(Object::Integer(3)));
    assert_eq!(run("-7 / 2"), Ok(Object::Integer(-3)));
    assert_eq!(run("7 / -2"), Ok(Object::Integer(-3)));
    assert_eq!(run("-7 / -2"), Ok(Object::Integer(3)));
    assert_eq!(run("0 / 5"), Ok(Object::Integer(0)));
    assert_eq!(run("1 / 2"), Ok(Object::Integer(0)));
    assert_eq!(run("-1 / 2"), Ok(Object::Integer(0)));
}

#[test]
fn division_by_zero_is_an_error() {
    assert_eq!(run("1 / 0"), Err(EvalError::DivisionByZero));
    assert_eq!(run("0 / 0"), Err(EvalError::DivisionByZero));
    assert_eq!(run("let z = 0; 5 / z"), Err(EvalError::DivisionByZero));
}

#[test]
fn integer_overflow_is_an_error() {
    assert_eq!(
        run("9223372036854775807 + 1"),
        Err(EvalError::IntegerOverflow)
    );
    assert_eq!(
        run("-9223372036854775807 - 2"),
        Err(EvalError::IntegerOverflow)
    );
    assert_eq!(
        run("4611686018427387904 * 2"),
        Err(EvalError::IntegerOverflow)
    );
    assert_eq!(
        run("-9223372036854775807 - 1"),
        Ok(Object::Integer(i64::MIN))
    );
    assert_eq!(
        run("let m = -9223372036854775807 - 1; m / -1"),
        Err(EvalError::IntegerOverflow)
    );
    assert_eq!(
        run("let m = -9223372036854775807 - 1; -m"),
        Err(EvalError::IntegerOverflow)
    );
    assert_eq!(
        run("let m = -9223372036854775807 - 1; m / 1"),
        Ok(Object::Integer(i64::MIN))
    );
}

#[test]
fn precedence_decides_the_value() {
    assert_eq!(run("2 + 3 * 4"), Ok(Object::Integer(14)));
    assert_eq!(run("(2 + 3) * 4"), Ok(Object::Integer(20)));
    assert_eq!(run("10 - 4 - 3"), Ok(Object::Integer(3)));
    assert_eq!(run("1 + 2 < 2 * 2"), Ok(Object::Bool(true)));
}

#[test]
fn equality_of_booleans_is_a_type_error() {
    assert_eq!(run("1 < 2 == true"), Err(EvalError::TypeMismatch));
    assert_eq!(run("true == true"), Err(EvalError::TypeMismatch));
}

#[test]
fn operands_of_different_kinds_are_a_type_error() {
    assert_eq!(run("1 + \"a\""), Err(EvalError::TypeMismatch));
    assert_eq!(run("\"a\" + 1"), Err(EvalError::TypeMismatch));
    assert_eq!(run("\"a\" - \"b\""), Err(EvalError::TypeMismatch));
    assert_eq!(run("\"a\" == \"a\""), Err(EvalError::TypeMismatch));
    assert_eq!(run("[1] + [2]"), Err(EvalError::TypeMismatch));
    assert_eq!(run("true + 1"), Err(EvalError::TypeMismatch));
    assert_eq!(run("-true"), Err(EvalError::TypeMismatch));
    assert_eq!(run("!1"), Err(EvalError::TypeMismatch));
    assert_eq!(run("-\"a\""), Err(EvalError::TypeMismatch));
}

#[test]
fn condition_must_be_a_boolean() {
    assert_eq!(run("if (1) {2}"), Err(EvalError::TypeMismatch));
    assert_eq!(run("if (\"\") {2} else {3}"), Err(EvalError::TypeMismatch));
    assert_eq!(run("if (len) {2}"), Err(EvalError::TypeMismatch));
}

#[test]
fn undefined_identifier() {
    assert_eq!(run("x"), Err(EvalError::UndefinedIdentifier));
    assert_eq!(run("let a = 1; a + b"), Err(EvalError::UndefinedIdentifier));
    assert_eq!(run("fn() { y }()"), Err(EvalError::UndefinedIdentifier));
}

#[test]
fn let_then_use_has_the_value_of_the_expression() {
    let sources = [
        "1 + 2 * 3",
        "\"a\" + \"b\"",
        "[1, 2, 3][1]",
        "{1: 2}[1]",
        "if (1 < 2) {10} else {20}",
        "fn(a) { a * a }(7)",
        "len(\"abc\")",
        "1 / 0",
        "nothing",
    ];
    for source in sources {
        assert_eq!(run(&format!("let x = {}; x", source)), run(source));
    }
}

#[test]
fn let_has_the_value_null() {
    assert_eq!(run("let x = 5"), Ok(Object::Null));
    assert_eq!(run("1; let x = 5;"), Ok(Object::Null));
    assert_eq!(run(""), Ok(Object::Null));
    assert_eq!(run("if (true) {}"), Ok(Object::Null));
    assert_eq!(run("fn() {}()"), Ok(Object::Null));
}

#[test]
fn closures_capture_the_scope_they_were_made_in() {
    assert_eq!(
        run("let adder = fn(x){ fn(y){ x + y } }; adder(2)(3)"),
        Ok(Object::Integer(5))
    );
    assert_eq!(
        run("let adder = fn(x){ fn(y){ x + y } }; let a = adder(2); let b = adder(10); a(1) + b(1)"),
        Ok(Object::Integer(14))
    );
}

#[test]
fn calls_run_in_the_scope_of_the_definition() {
    assert_eq!(
        run("let x = 1; let f = fn() { x }; let g = fn() { let x = 2; f() }; g()"),
        Ok(Object::Integer(1))
    );
    assert_eq!(
        run("let f = fn() { later }; let later = 5; f()"),
        Ok(Object::Integer(5))
    );
}

#[test]
fn shadowing_stays_inside_the_call() {
    let mut env = EnviromentVariables::new();
    assert_eq!(
        run_in("let x = 1; fn(){ let x = 2; x }()", &mut env),
        Ok(Object::Integer(2))
    );
    assert_eq!(run_in("x", &mut env), Ok(Object::Integer(1)));
}

#[test]
fn parameters_shadow_outer_names() {
    assert_eq!(
        run("let x = 1; let f = fn(x) { x * 10 }; f(5) + x"),
        Ok(Object::Integer(51))
    );
}

#[test]
fn a_later_let_replaces_an_earlier_one() {
    assert_eq!(run("let x = 1; let x = x + 1; x"), Ok(Object::Integer(2)));
}

#[test]
fn bindings_last_for_the_session() {
    let mut env = EnviromentVariables::new();
    assert_eq!(run_in("let a = 2;", &mut env), Ok(Object::Null));
    assert_eq!(run_in("let b = a * 3;", &mut env), Ok(Object::Null));
    assert_eq!(run_in("a + b", &mut env), Ok(Object::Integer(8)));
}

#[test]
fn an_error_keeps_the_bindings_made_before_it() {
    let mut env = EnviromentVariables::new();
    assert_eq!(
        run_in("let a = 2; let b = 1 / 0; let c = 3;", &mut env),
        Err(EvalError::DivisionByZero)
    );
    assert_eq!(run_in("a", &mut env), Ok(Object::Integer(2)));
    assert_eq!(run_in("b", &mut env), Err(EvalError::UndefinedIdentifier));
    assert_eq!(run_in("c", &mut env), Err(EvalError::UndefinedIdentifier));
}

#[test]
fn block_of_a_conditional_binds_in_the_enclosing_scope() {
    assert_eq!(
        run("if (true) { let inner = 7; }; inner"),
        Ok(Object::Integer(7))
    );
}

#[test]
fn return_ends_only_its_block() {
    assert_eq!(
        run("let f = fn(x) { if (x > 0) { return 1; 2 }; 3 }; f(5)"),
        Ok(Object::Integer(3))
    );
    assert_eq!(
        run("let f = fn(x) { return x; x * 100 }; f(5)"),
        Ok(Object::Integer(5))
    );
    assert_eq!(run("return 1; 2"), Ok(Object::Integer(1)));
    assert_eq!(run("1; return; 2"), Ok(Object::Null));
    assert_eq!(run("if (true) { return 4; 5 }"), Ok(Object::Integer(4)));
}

#[test]
fn array_bounds() {
    assert_eq!(run("[1,2,3][3]"), Err(EvalError::IndexOutOfBounds));
    assert_eq!(run("[1,2,3][2]"), Ok(Object::Integer(3)));
    assert_eq!(run("[1,2,3][0]"), Ok(Object::Integer(1)));
    assert_eq!(run("[1,2,3][-1]"), Err(EvalError::IndexOutOfBounds));
    assert_eq!(run("[][0]"), Err(EvalError::IndexOutOfBounds));
    assert_eq!(run("[1,2][9]"), Err(EvalError::IndexOutOfBounds));
}

#[test]
fn array_index_must_be_an_integer() {
    assert_eq!(run("[1,2,3][\"a\"]"), Err(EvalError::TypeMismatch));
    assert_eq!(run("[1,2,3][true]"), Err(EvalError::TypeMismatch));
}

#[test]
fn absent_hash_key_gives_null() {
    assert_eq!(run("{1:2}[9]"), Ok(Object::Null));
    assert_eq!(run("{}[\"a\"]"), Ok(Object::Null));
    assert_eq!(run("{1:2}[\"1\"]"), Ok(Object::Null));
    assert_eq!(run("{\"1\":2}[1]"), Ok(Object::Null));
}

#[test]
fn unhashable_key() {
    assert_eq!(run("{true: 1}"), Err(EvalError::UnhashableKey));
    assert_eq!(run("{[1]: 1}"), Err(EvalError::UnhashableKey));
    assert_eq!(run("{1: 2}[true]"), Err(EvalError::UnhashableKey));
    assert_eq!(run("{1: 2}[[1]]"), Err(EvalError::UnhashableKey));
    assert_eq!(run("{fn() {}: 1}"), Err(EvalError::UnhashableKey));
}

#[test]
fn a_repeated_key_keeps_the_latest_value() {
    assert_eq!(run("{1: 2, 1: 3}[1]"), Ok(Object::Integer(3)));
    assert_eq!(
        run("{1: 2, \"a\": 5, 1: 3}"),
        Ok(Object::HashMap(vec![
            (Object::Integer(1), Object::Integer(3)),
            (Object::String(String::from("a")), Object::Integer(5)),
        ]))
    );
}

#[test]
fn subscript_of_something_else_is_a_type_error() {
    assert_eq!(run("5[0]"), Err(EvalError::TypeMismatch));
    assert_eq!(run("\"abc\"[0]"), Err(EvalError::TypeMismatch));
    assert_eq!(run("fn() {}[0]"), Err(EvalError::TypeMismatch));
}

#[test]
fn arity_mismatch() {
    assert_eq!(
        run("let f = fn(a, b) { a + b }; f(1)"),
        Err(EvalError::ArityMismatch)
    );
    assert_eq!(
        run("let f = fn(a, b) { a + b }; f(1, 2, 3)"),
        Err(EvalError::ArityMismatch)
    );
    assert_eq!(
        run("let f = fn(a, b) { a + b }; f(1, 2)"),
        Ok(Object::Integer(3))
    );
    assert_eq!(run("fn() { 1 }(1)"), Err(EvalError::ArityMismatch));
    assert_eq!(
        run("let adder = fn(x){fn(x,y) { x + y; };}; let a2 = adder(2); a2(10);"),
        Err(EvalError::ArityMismatch)
    );
}

#[test]
fn calling_something_else_is_a_type_error() {
    assert_eq!(run("5(1)"), Err(EvalError::TypeMismatch));
    assert_eq!(run("\"f\"()"), Err(EvalError::TypeMismatch));
    assert_eq!(run("let x = [1]; x(0)"), Err(EvalError::TypeMismatch));
}

#[test]
fn arguments_are_evaluated_left_to_right_before_the_call() {
    assert_eq!(
        run("fn(a, b) { a }(1 / 0, missing)"),
        Err(EvalError::DivisionByZero)
    );
    assert_eq!(
        run("fn(a, b) { a }(missing, 1 / 0)"),
        Err(EvalError::UndefinedIdentifier)
    );
    assert_eq!(run("5(1 / 0)"), Err(EvalError::DivisionByZero));
    assert_eq!(run("missing(1 / 0)"), Err(EvalError::UndefinedIdentifier));
}

#[test]
fn null_is_a_valid_argument() {
    assert_eq!(
        run("let f = fn(a) { 1 }; f(if (false) {0})"),
        Ok(Object::Integer(1))
    );
}

#[test]
fn len_of_strings_and_arrays() {
    assert_eq!(run("len(\"\")"), Ok(Object::Integer(0)));
    assert_eq!(run("len([])"), Ok(Object::Integer(0)));
    assert_eq!(run("len([1, [2, 3], \"a\"])"), Ok(Object::Integer(3)));
    assert_eq!(run("len(\"h\u{e9}llo\")"), Ok(Object::Integer(6)));
    assert_eq!(run("len(5)"), Err(EvalError::TypeMismatch));
    assert_eq!(run("len({1: 2})"), Err(EvalError::TypeMismatch));
    assert_eq!(run("len()"), Err(EvalError::ArityMismatch));
    assert_eq!(run("len(\"a\", \"b\")"), Err(EvalError::ArityMismatch));
}

#[test]
fn print_gives_its_argument_back() {
    assert_eq!(run("print(5)"), Ok(Object::Integer(5)));
    assert_eq!(
        run("print(\"a\")"),
        Ok(Object::String(String::from("a")))
    );
    assert_eq!(
        run("print([1])"),
        Ok(Object::Array(vec![Object::Integer(1)]))
    );
    assert_eq!(
        run("print({1: 2})"),
        Ok(Object::HashMap(vec![(
            Object::Integer(1),
            Object::Integer(2)
        )]))
    );
    assert_eq!(run("print(true)"), Err(EvalError::TypeMismatch));
    assert_eq!(run("print()"), Err(EvalError::ArityMismatch));
}

#[test]
fn built_in_names_can_be_shadowed() {
    assert_eq!(run("let len = fn(x) { 42 }; len(\"abc\")"), Ok(Object::Integer(42)));
    assert_eq!(
        run("len"),
        Ok(Object::BuiltInFunction(String::from("len")))
    );
    assert_eq!(
        run("let l = len; l(\"ab\")"),
        Ok(Object::Integer(2))
    );
}

#[test]
fn unbounded_recursion_exhausts_the_depth() {
    assert_eq!(
        run("let f = fn(x) { f(x + 1) }; f(0)"),
        Err(EvalError::ResourceExhausted)
    );
}

#[test]
fn recursion_within_the_depth() {
    assert_eq!(
        run("let count = fn(x) { if (x > 0) { count(x - 1) } else { 0 } }; count(199)"),
        Ok(Object::Integer(0))
    );
    assert_eq!(
        run("let count = fn(x) { if (x > 0) { count(x - 1) } else { 0 } }; count(200)"),
        Err(EvalError::ResourceExhausted)
    );
    assert_eq!(crimson::semantics::MAX_CALL_DEPTH, 200);
}

#[test]
fn array_literal_keeps_the_order() {
    assert_eq!(
        run("[1 + 1, \"a\", [true]]"),
        Ok(Object::Array(vec![
            Object::Integer(2),
            Object::String(String::from("a")),
            Object::Array(vec![Object::Bool(true)])
        ]))
    );
}

#[test]
fn function_literal_is_a_closure_over_its_scope() {
    match run("fn(a, b) { a }") {
        Ok(Object::FunctionLiteral(parameters, body, scope)) => {
            assert_eq!(parameters, vec![String::from("a"), String::from("b")]);
            assert_eq!(body.to_string(), "{a;}");
            assert_eq!(scope, 0);
        }
        _ => panic!("expected a function"),
    }
}
