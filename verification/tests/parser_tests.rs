use crimson::ast::{Expression, Infix, Prefix, Program, Statement};
use crimson::grammar::Precedence;
use crimson::lexer::{Lexer, Token};
use crimson::parser::{ParseError, Parser};

const TEST_STR: &str = "
    let five = 5;
    let ten = 10;

    let add = fn(x, y) {
      x + y;
    };

    let result = add(five, ten);
    !-/*5;
    5 < 10 > 5;

    if (5 < 10) {
      return true;
    } else {
      return false;
    }

    10 == 10;
    10 != 9;
    let x = \"x\";
    let y = \"y\";
    ";

#[test]
fn test_parser() {
    let lexer = Lexer::new(TEST_STR).unwrap();
    let mut parser = Parser::new(lexer);

    let mut token = parser.next();
    while token != Token::Eof {
        token = parser.next();
        let peek_token = parser.peek();
        println!("{} {}", token.to_string(), peek_token.to_string());
    }
}

fn test_case_statements(input: &str) -> Vec<Statement> {
    let lexer = Lexer::new(input).unwrap();
    let mut parser = Parser::new(lexer);
    let program = parser.parse_program().unwrap();
    program.stmts
}

const TEST_RETURN_STATEMENTS_STR: &str = "
        return;
        return 5;
        return 10 + 4 * 5;
    ";

#[test]
fn test_parser_return_statements() {
    let statements = test_case_statements(TEST_RETURN_STATEMENTS_STR);
    assert_eq!(statements.len(), 3);

    let mut idx = 0;
    for stmt in statements.iter() {
        let _ret_stmt = match stmt {
            Statement::Return(expr) => match idx {
                0 => {
                    assert_eq!(expr.is_none(), true);
                    assert_eq!(stmt.to_string(), "return;")
                }
                1 => assert_eq!(stmt.to_string(), "return 5;"),
                2 => assert_eq!(stmt.to_string(), "return (10 + (4 * 5));"),
                _ => panic!("Unexcepted index {}", idx),
            },
            _ => panic!(
                "{}: Expected return statement but found {}",
                idx,
                stmt.to_string()
            ),
        };

        idx += 1;
    }
}

const TEST_PREFIX_STR: &str = "
        !y;
        -1;
    ";

#[test]
fn test_parser_prefix_expressions() {
    let statements = test_case_statements(TEST_PREFIX_STR);
    assert_eq!(statements.len(), 2);

    let mut idx = 0;
    for stmt in statements.iter() {
        let _prefix_expr = match stmt {
            Statement::Expression(expr) => match &**expr {
                Expression::Prefix(prefix, expr2) => match idx {
                    0 => {
                        assert_eq!(*prefix, Prefix::Bang);
                        assert_eq!(expr2.to_string(), "y");
                    }
                    1 => {
                        assert_eq!(*prefix, Prefix::Minus);
                        assert_eq!(expr2.to_string(), "1");
                    }
                    _ => panic!("Unexpected expression index {}", idx),
                },
                _ => panic!("Expected prefix expression"),
            },
            _ => panic!(
                "Expected statement with prefix expression but found {}",
                stmt.to_string()
            ),
        };
        idx += 1;
    }
}

const TEST_IF_NO_ELSE_STR: &str = "
        if (x > y) {
            let z = x + y;
        };
    ";

#[test]
fn test_parser_if_no_else() {
    let statements = test_case_statements(TEST_IF_NO_ELSE_STR);

    assert_eq!(statements.len(), 1);
    let stmt = &statements[0];
    match stmt {
        Statement::Expression(expr) => match &**expr {
            Expression::If(cond, true_block, false_block) => {
                assert_eq!(cond.to_string(), "(x > y)");
                assert_eq!(true_block.to_string(), "{let z = (x + y);}");
                assert_eq!(false_block.is_none(), true);
            }
            _ => panic!("Expected if expression"),
        },
        _ => panic!("Unexpected expression found"),
    }
}

const TEST_IF_ELSE_STR: &str = "
        if (x > y) {
            x*2 + 3;
            let x = y;
        } else {
            4 + 5*y;
            x + y;
        }
    ";

#[test]
fn test_parser_if_else() {
    let statements = test_case_statements(TEST_IF_ELSE_STR);
    assert_eq!(statements.len(), 1);

    let stmt = &statements[0];
    match stmt {
        Statement::Expression(expr) => match &**expr {
            Expression::If(cond, true_block, false_block) => {
                assert_eq!(cond.to_string(), "(x > y)");
                assert_eq!(true_block.to_string(), "{((x * 2) + 3);let x = y;}");
                assert_eq!(
                    false_block.as_ref().unwrap().to_string(),
                    "{(4 + (5 * y));(x + y);}"
                );
            }
            _ => panic!("Expected if expression"),
        },
        _ => panic!("Unexpected expression found"),
    }
}

const TEST_FUNCTION_STR1: &str = "
        fn(x,y,z) {
            let z = x + y;
            z
        };
        let fact = fn(x){
                        if (x > 1) {
                            return x;
                        } else {
                            return 1;
                        };
                    };
    ";

#[test]
fn test_parser_function() {
    let statements = test_case_statements(TEST_FUNCTION_STR1);
    assert_eq!(statements.len(), 2);
    let stmt = &statements[0];
    match stmt {
        Statement::Expression(expr) => match &**expr {
            Expression::FunctionLiteral(params, block) => {
                assert_eq!(params.join(","), "x,y,z");
                assert_eq!(block.stmts[0].to_string(), "let z = (x + y);");
                assert_eq!(block.stmts[1].to_string(), "z;");
            }
            _ => panic!("Expected function literal"),
        },
        _ => panic!("Unexpected expression found"),
    }
}

const TEST_FUNCTION_STR2: &str = "
        fn() {
            10*20;
        }
    ";

#[test]
fn test_parser_function_no_parameters() {
    let statements = test_case_statements(TEST_FUNCTION_STR2);
    assert_eq!(statements.len(), 1);
    let stmt = &statements[0];
    match stmt {
        Statement::Expression(expr) => match &**expr {
            Expression::FunctionLiteral(params, block) => {
                assert_eq!(params.len(), 0);
                assert_eq!(block.stmts[0].to_string(), "(10 * 20);");
            }
            _ => panic!("Expected function literal"),
        },
        _ => panic!("Unexpected expression found"),
    }
}

const TEST_FUNCTION_STR3: &str = "
        fn(x, y) {
            x*y;
        }(10, 20);
    ";

#[test]
fn test_parser_function_expression() {
    let statements = test_case_statements(TEST_FUNCTION_STR3);
    assert_eq!(statements.len(), 1);
    let stmt = &statements[0];
    match stmt {
        Statement::Expression(expr) => {
            println!("{}", expr.to_string());
        }
        _ => panic!("Unexpected expression found"),
    }
}

const TEST_FUNCTION_CALL_STR: &str = "
        sum();
        sum3(x, y, z);
        sum_expr(x, y + w, z);
        fn(x, y){x + y;}(2, 3);
    ";

#[test]
fn test_parser_call_with_parameters() {
    let statements = test_case_statements(TEST_FUNCTION_CALL_STR);
    assert_eq!(statements.len(), 4);

    for idx in 0..statements.len() {
        match &statements[idx] {
            Statement::Expression(expr) => match &**expr {
                Expression::Call(func_expr, params) => match idx {
                    0 => {
                        assert_eq!(func_expr.to_string(), "sum");
                        assert_eq!(params.len(), 0);
                    }
                    1 => {
                        assert_eq!(func_expr.to_string(), "sum3");
                        assert_eq!(
                            params
                                .iter()
                                .map(|p| p.to_string())
                                .collect::<Vec<String>>()
                                .join(","),
                            "x,y,z"
                        );
                    }
                    2 => {
                        assert_eq!(func_expr.to_string(), "sum_expr");
                        assert_eq!(
                            params
                                .iter()
                                .map(|p| p.to_string())
                                .collect::<Vec<String>>()
                                .join(","),
                            "x,(y + w),z"
                        );
                    }
                    3 => {
                        assert_eq!(func_expr.to_string(), "fn(x,y){(x + y);}");
                        assert_eq!(
                            params
                                .iter()
                                .map(|p| p.to_string())
                                .collect::<Vec<String>>()
                                .join(","),
                            "2,3"
                        );
                    }
                    _ => panic!("Unexpected idx {}", idx),
                },
                _ => panic!("Expected call expression"),
            },
            _ => panic!("Expected a expression statement"),
        }
    }
}

const TEST_STRINGS_STR: &str = "
        \"abcd\";
    ";

#[test]
fn test_parser_string_statements() {
    let statements = test_case_statements(TEST_STRINGS_STR);

    assert_eq!(statements.len(), 1);
    for stmt in statements.iter() {
        match stmt {
            Statement::Expression(expr) => match &**expr {
                Expression::String(s) => println!("{}", s.to_string()),
                _ => panic!(
                    "Expected string literal in expression found {}",
                    expr.to_string()
                ),
            },
            _ => panic!("Expected a string expression"),
        }
    }
}

fn parse(input: &str) -> Result<Box<Program>, ParseError> {
    let lexer = Lexer::new(input).unwrap();
    let mut parser = Parser::new(lexer);
    parser.parse_program()
}

fn shown(input: &str) -> String {
    parse(input).unwrap().to_string()
}

fn failure(input: &str) -> (Token, usize) {
    let error = parse(input).err().unwrap();
    (error.token, error.position)
}

fn ident(name: &str) -> Box<Expression> {
    Box::new(Expression::Identifier(String::from(name)))
}

fn number(i: i64) -> Box<Expression> {
    Box::new(Expression::IntegerLiteral(i))
}

#[test]
fn empty_program() {
    assert_eq!(parse("").unwrap().stmts, vec![]);
    assert_eq!(shown(""), "");
}

#[test]
fn precedence_of_product_over_sum() {
    assert_eq!(shown("2 + 3 * 4"), "(2 + (3 * 4));");
    assert_eq!(shown("2 * 3 + 4"), "((2 * 3) + 4);");
    assert_eq!(shown("(2 + 3) * 4"), "((2 + 3) * 4);");
}

#[test]
fn precedence_of_comparison_over_equality() {
    assert_eq!(shown("1 < 2 == true"), "((1 < 2) == true);");
    assert_eq!(shown("true != 1 > 2"), "(true != (1 > 2));");
    assert_eq!(shown("1 + 2 < 3 * 4"), "((1 + 2) < (3 * 4));");
}

#[test]
fn binary_operators_group_to_the_left() {
    assert_eq!(shown("1 - 2 - 3"), "((1 - 2) - 3);");
    assert_eq!(shown("8 / 4 / 2"), "((8 / 4) / 2);");
    assert_eq!(shown("1 + 2 - 3 + 4"), "(((1 + 2) - 3) + 4);");
    assert_eq!(shown("a == b != c"), "((a == b) != c);");
}

#[test]
fn prefix_binds_tighter_than_binary_operators() {
    assert_eq!(shown("-a * b"), "((-a) * b);");
    assert_eq!(shown("!a == b"), "((!a) == b);");
    assert_eq!(shown("--a"), "(-(-a));");
    assert_eq!(shown("-(a + b)"), "(-(a + b));");
}

#[test]
fn call_and_subscript_bind_tightest() {
    assert_eq!(shown("-f(x)"), "(-f(x));");
    assert_eq!(shown("a + f(b) * c"), "(a + (f(b) * c));");
    assert_eq!(shown("a * b[1]"), "(a * b[1]);");
    assert_eq!(shown("f(1)(2)[3]"), "f(1)(2)[3];");
    assert_eq!(shown("-a[0]"), "(-a[0]);");
}

#[test]
fn syntax_tree_of_an_infix_expression() {
    let program = parse("a + 2 * b").unwrap();
    assert_eq!(
        program.stmts,
        vec![Statement::Expression(Box::new(Expression::Infix(
            Infix::Plus,
            ident("a"),
            Box::new(Expression::Infix(Infix::Asterisk, number(2), ident("b")))
        )))]
    );
}

#[test]
fn let_statement() {
    let program = parse("let x = 5;").unwrap();
    assert_eq!(
        program.stmts,
        vec![Statement::Let(String::from("x"), number(5))]
    );
    assert_eq!(shown("let x = 1 + 2"), "let x = (1 + 2);");
}

#[test]
fn let_statement_errors() {
    assert_eq!(failure("let 5 = 1;"), (Token::Integer(5), 1));
    assert_eq!(failure("let x 1;"), (Token::Integer(1), 2));
    assert_eq!(failure("let x = ;"), (Token::Semicolon, 3));
    assert_eq!(failure("let"), (Token::Eof, 1));
    assert_eq!(failure("let x"), (Token::Eof, 2));
    assert_eq!(failure("let x ="), (Token::Eof, 3));
}

#[test]
fn return_without_expression() {
    assert_eq!(
        parse("return;").unwrap().stmts,
        vec![Statement::Return(None)]
    );
    assert_eq!(shown("fn() { return; }"), "fn(){return;};");
    assert_eq!(shown("fn() { return; 1 }"), "fn(){return;1;};");
    assert_eq!(shown("return; return 1"), "return;return 1;");
}

#[test]
fn return_needs_a_semicolon_or_an_expression() {
    assert_eq!(failure("return"), (Token::Eof, 1));
    assert_eq!(failure("fn() { return }"), (Token::RBrace, 5));
    assert_eq!(failure("return )"), (Token::RParen, 1));
}

#[test]
fn semicolons_between_statements_are_optional() {
    assert_eq!(shown("1 2"), "1;2;");
    assert_eq!(shown("a b; c"), "a;b;c;");
    assert_eq!(shown("if (a) {b} c"), "if (a) {b;};c;");
    assert_eq!(shown("if (a) {b} else {c} 10 == 10;"), "if (a) {b;} else {c;};(10 == 10);");
}

#[test]
fn a_lone_semicolon_is_no_statement() {
    assert_eq!(failure(";"), (Token::Semicolon, 0));
    assert_eq!(failure("1;;"), (Token::Semicolon, 2));
}

#[test]
fn conditional_with_and_without_else() {
    assert_eq!(shown("if (x) {1}"), "if (x) {1;};");
    assert_eq!(shown("if (x) {1} else {2}"), "if (x) {1;} else {2;};");
    assert_eq!(shown("if (x) {} else {}"), "if (x) {} else {};");
    assert_eq!(shown("if (x) {1}[0]"), "if (x) {1;}[0];");
    assert_eq!(shown("fn() { if (x) {1} }"), "fn(){if (x) {1;};};");
    assert_eq!(
        shown("fn() { if (x) {1} }; 5"),
        "fn(){if (x) {1;};};5;"
    );
}

#[test]
fn conditional_errors() {
    assert_eq!(failure("if x {1}"), (Token::Identifiere(String::from("x")), 1));
    assert_eq!(failure("if (x {1}"), (Token::LBrace, 3));
    assert_eq!(failure("if (x) 1"), (Token::Integer(1), 4));
    assert_eq!(failure("if (x) {1} else 2"), (Token::Integer(2), 8));
}

#[test]
fn unterminated_block_is_an_error() {
    assert_eq!(failure("if (x) { 1"), (Token::Eof, 6));
    assert_eq!(failure("fn() { let a = 1;"), (Token::Eof, 9));
    assert_eq!(failure("fn() {"), (Token::Eof, 4));
}

#[test]
fn function_literal_parameters() {
    assert_eq!(shown("fn(a, b,) {}"), "fn(a,b){};");
    assert_eq!(shown("fn(a b) {}"), "fn(a,b){};");
    assert_eq!(failure("fn(a, 1) {}"), (Token::Integer(1), 4));
    assert_eq!(failure("fn(,) {}"), (Token::Comma, 2));
    assert_eq!(failure("fn a {}"), (Token::Identifiere(String::from("a")), 1));
    assert_eq!(failure("fn(a"), (Token::Eof, 3));
    assert_eq!(failure("fn(a) 1"), (Token::Integer(1), 4));
}

#[test]
fn array_literal() {
    assert_eq!(shown("[]"), "[];");
    assert_eq!(shown("[1, 2 * 3, [4]]"), "[1,(2 * 3),[4]];");
    assert_eq!(shown("[1, 2,]"), "[1,2];");
    assert_eq!(shown("[1 2]"), "[1,2];");
    assert_eq!(failure("[1, 2"), (Token::Eof, 4));
    assert_eq!(failure("[,]"), (Token::Comma, 1));
    assert_eq!(failure("[1,,2]"), (Token::Comma, 3));
}

#[test]
fn hash_literal() {
    assert_eq!(shown("{}"), "{};");
    assert_eq!(shown("{1: 2, \"a\": b + c}"), "{1:2,\"a\":(b + c)};");
    assert_eq!(shown("{1: 2,}"), "{1:2};");
    assert_eq!(shown("{a: {b: c}}"), "{a:{b:c}};");
    assert_eq!(failure("{1 2}"), (Token::Integer(2), 2));
    assert_eq!(failure("{1: }"), (Token::RBrace, 3));
    assert_eq!(failure("{1: 2"), (Token::Eof, 4));
}

#[test]
fn call_arguments() {
    assert_eq!(shown("f()"), "f();");
    assert_eq!(shown("f(1, 2,)"), "f(1,2);");
    assert_eq!(shown("f(g(1), 2)[0]"), "f(g(1),2)[0];");
    assert_eq!(failure("f(1"), (Token::Eof, 3));
    assert_eq!(failure("f(1;"), (Token::Semicolon, 3));
}

#[test]
fn subscript() {
    assert_eq!(shown("a[1 + 2]"), "a[(1 + 2)];");
    assert_eq!(shown("a[1][2]"), "a[1][2];");
    assert_eq!(failure("a[1"), (Token::Eof, 3));
    assert_eq!(failure("a[1,]"), (Token::Comma, 3));
    assert_eq!(failure("a[]"), (Token::RBracket, 2));
}

#[test]
fn group_errors() {
    assert_eq!(failure("(1 + 2"), (Token::Eof, 4));
    assert_eq!(failure("(1 + 2]"), (Token::RBracket, 4));
    assert_eq!(failure("()"), (Token::RParen, 1));
    assert_eq!(failure(")"), (Token::RParen, 0));
}

#[test]
fn tokens_that_start_no_expression() {
    assert_eq!(failure("1 + * 2"), (Token::Asterisk, 2));
    assert_eq!(failure("else"), (Token::Else, 0));
    assert_eq!(failure("="), (Token::Assign, 0));
    assert_eq!(failure("1 +"), (Token::Eof, 2));
    assert_eq!(failure("!"), (Token::Eof, 1));
}

#[test]
fn parse_error_text() {
    let error = parse("let x 1").err().unwrap();
    assert_eq!(error.to_string(), "Problem parsing near token 1");
    let error = parse("(1").err().unwrap();
    assert_eq!(error.to_string(), "Problem parsing near token Eof");
}

#[test]
fn precedence_of_tokens() {
    let parser = Parser::new(Lexer::new("a + b").unwrap());
    assert_eq!(parser.precedence(&Token::Eq), Precedence::Equals);
    assert_eq!(parser.precedence(&Token::NotEq), Precedence::Equals);
    assert_eq!(parser.precedence(&Token::Lt), Precedence::LessGreater);
    assert_eq!(parser.precedence(&Token::Gt), Precedence::LessGreater);
    assert_eq!(parser.precedence(&Token::Plus), Precedence::Sum);
    assert_eq!(parser.precedence(&Token::Minus), Precedence::Sum);
    assert_eq!(parser.precedence(&Token::Asterisk), Precedence::Product);
    assert_eq!(parser.precedence(&Token::Slash), Precedence::Product);
    assert_eq!(parser.precedence(&Token::LParen), Precedence::Call);
    assert_eq!(parser.precedence(&Token::LBracket), Precedence::Index);
    assert_eq!(parser.precedence(&Token::Semicolon), Precedence::Lowest);
    assert_eq!(parser.precedence(&Token::Bang), Precedence::Lowest);
    assert_eq!(parser.peek_precedence(), Precedence::Sum);
    assert!(crimson::parser::binds_tighter(Precedence::Index, Precedence::Call));
    assert!(!crimson::parser::binds_tighter(Precedence::Sum, Precedence::Sum));
}

#[test]
fn expecting_tokens() {
    let mut parser = Parser::new(Lexer::new("( a )").unwrap());
    assert!(parser.expect_current_token(Token::LParen).is_ok());
    assert_eq!(parser.peek(), Token::RParen);
    let error = parser.expect_current_token(Token::RParen).err().unwrap();
    assert_eq!(error.token, Token::Identifiere(String::from("a")));
    assert_eq!(error.position, 1);
    let error = parser.expect_next_token(Token::LParen).err().unwrap();
    assert_eq!(error.token, Token::RParen);
    assert_eq!(error.position, 2);
    assert!(parser.expect_next_token(Token::RParen).is_ok());
    assert_eq!(parser.next(), Token::Eof);
    assert_eq!(parser.next(), Token::Eof);
}

#[test]
fn parsing_methods_leave_the_last_token_current() {
    let mut parser = Parser::new(Lexer::new("[1, 2] + 3").unwrap());
    let array = parser.parse_array_literal().unwrap();
    assert_eq!(array.to_string(), "[1,2]");
    assert_eq!(parser.peek(), Token::Plus);

    let mut parser = Parser::new(Lexer::new("(1, x) rest").unwrap());
    let arguments = parser.parse_call_params().unwrap();
    assert_eq!(arguments.len(), 2);
    assert_eq!(parser.peek(), Token::Identifiere(String::from("rest")));

    let mut parser = Parser::new(Lexer::new("(a, b) {").unwrap());
    assert_eq!(
        parser.parse_function_params().unwrap(),
        vec![String::from("a"), String::from("b")]
    );
    assert_eq!(parser.peek(), Token::LBrace);

    let mut parser = Parser::new(Lexer::new("[0] ;").unwrap());
    let subscript = parser.parse_array_index(ident("a")).unwrap();
    assert_eq!(subscript.to_string(), "a[0]");
    assert_eq!(parser.peek(), Token::Semicolon);

    let mut parser = Parser::new(Lexer::new("(1) ;").unwrap());
    let call = parser.parse_function_call(ident("f")).unwrap();
    assert_eq!(call.to_string(), "f(1)");

    let mut parser = Parser::new(Lexer::new("{1: 2} ;").unwrap());
    assert_eq!(parser.parse_hash_literal().unwrap().to_string(), "{1:2}");

    let mut parser = Parser::new(Lexer::new("fn(a) { a } ;").unwrap());
    assert_eq!(parser.parse_function().unwrap().to_string(), "fn(a){a;}");
    assert_eq!(parser.peek(), Token::Semicolon);

    let mut parser = Parser::new(Lexer::new("a + b; c").unwrap());
    assert_eq!(
        parser.parse_expression_statement().unwrap().to_string(),
        "(a + b);"
    );
    assert_eq!(parser.peek(), Token::Identifiere(String::from("c")));

    let mut parser = Parser::new(Lexer::new("let a = 1; c").unwrap());
    assert_eq!(parser.parse_statement().unwrap().to_string(), "let a = 1;");
    assert_eq!(parser.peek(), Token::Identifiere(String::from("c")));
}

#[test]
fn text_of_expressions() {
    assert_eq!(shown("\"a b\""), "\"a b\";");
    assert_eq!(shown("true; false"), "true;false;");
    assert_eq!(shown("x[y](z)"), "x[y](z);");
    assert_eq!(Prefix::Minus.to_string(), "-");
    assert_eq!(Prefix::Bang.to_string(), "!");
    assert_eq!(Infix::Eq.to_string(), "==");
    assert_eq!(Infix::NotEq.to_string(), "!=");
    assert_eq!(Infix::Lt.to_string(), "<");
    assert_eq!(Infix::Gt.to_string(), ">");
    assert_eq!(Infix::Plus.to_string(), "+");
    assert_eq!(Infix::Minus.to_string(), "-");
    assert_eq!(Infix::Asterisk.to_string(), "*");
    assert_eq!(Infix::Slash.to_string(), "/");
    assert_eq!(Infix::LBracket.to_string(), "[");
    assert_eq!(Expression::IntegerLiteral(-7).to_string(), "-7");
}

#[test]
fn text_parses_back_to_the_same_tree() {
    let sources = [
        "x",
        "12",
        "\"text\"",
        "true",
        "[1, [2, x], \"s\"]",
        "{1: x, \"k\": [2]}",
        "f(1, g(2))[3](4)",
        "if (a) { b; let c = d; return e; return; } else { f(1) }",
        "if (a) {}",
        "fn(a, b) { let c = fn() { a }; c() }",
        "fn() {}()",
    ];
    for source in sources {
        let first = parse(source).unwrap();
        let text = first.to_string();
        let second = parse(&text).unwrap();
        assert_eq!(first.stmts, second.stmts);
        assert_eq!(second.to_string(), text);
    }
}

#[test]
fn copies_of_trees_are_equal() {
    let program = parse("let f = fn(a) { if (a[0] == {1: 2}[1]) { -a } else { !b(1, \"s\") } };")
        .unwrap();
    let copy: Vec<Statement> = program.stmts.iter().map(|s| s.clone()).collect();
    assert_eq!(copy, program.stmts);
}

#[test]
fn text_of_operators() {
    assert_eq!(shown("1 + 2"), "(1 + 2);");
    assert_eq!(shown("-1"), "(-1);");
    assert_eq!(shown("!a"), "(!a);");
    assert_eq!(shown("!(a != b)"), "(!(a != b));");
    assert_eq!(shown("a == -b"), "(a == (-b));");
    assert_eq!(shown("a - -1"), "(a - (-1));");
    assert_eq!(shown("(a + b)(c)"), "(a + b)(c);");
    assert_eq!(shown("(a + b)[c * d]"), "(a + b)[(c * d)];");
    assert_eq!(shown("if (a > b) {a} + 1"), "(if ((a > b)) {a;} + 1);");
}

#[test]
fn text_of_operators_parses_back() {
    let sources = [
        "1 + 2",
        "-1",
        "!a",
        "- - a",
        "!(a != b) == (c < d)",
        "1 - 2 - 3 * 4 / 5 + -6",
        "a == b != c > d < e",
        "-f(x)[1] * (g + h)(2)",
        "[1 + 2, -3, !true]",
        "{1 + 1: 2 * 2, \"a\" + \"b\": -1}",
        "if (a > b) { return a - b; } else { let c = b - a; c * c }",
        "fn(x, y) { x + y }(1, 2) + fn() { -1 }()",
        "if (a) {1} + 2",
        "let z = !(x == y); return -z;",
    ];
    for source in sources {
        let first = parse(source).unwrap();
        let text = first.to_string();
        let second = parse(&text).unwrap();
        assert_eq!(first.stmts, second.stmts);
        assert_eq!(second.to_string(), text);
    }
}

#[test]
fn every_expression_form_parses_back_as_one_statement() {
    let sources = [
        "x",
        "12",
        "\"text\"",
        "true",
        "!x",
        "-12",
        "a + b",
        "a * (b - c) / d",
        "if (a < b) { a } else { b }",
        "fn(a, b) { a == b }",
        "f(a + 1, -b)",
        "[a, b + c]",
        "a[b - 1]",
        "{a: b, \"c\": d != e}",
    ];
    for source in sources {
        let program = parse(source).unwrap();
        assert_eq!(program.stmts.len(), 1);
        let expression = match &program.stmts[0] {
            Statement::Expression(expression) => expression,
            _ => panic!("expected an expression"),
        };
        let again = parse(&expression.to_string()).unwrap();
        assert_eq!(again.stmts.len(), 1);
        match &again.stmts[0] {
            Statement::Expression(read) => assert_eq!(read, expression),
            _ => panic!("expected an expression"),
        }
    }
}

#[test]
fn programs_parse_back_from_their_text() {
    let sources = [
        "let a = [1, 2]; let f = fn(x, y) { if (x) { return y; } else { a[0] } }; f(true, {1: \"one\"})",
        "caf\u{e9}(\u{3b1}1) + \u{3b2}",
        "return; return x",
        "let empty = fn() {}; if (empty()) {} else {}",
    ];
    for source in sources {
        let first = parse(source).unwrap();
        let second = parse(&first.to_string()).unwrap();
        assert_eq!(first.stmts, second.stmts);
    }
}
