use crimson::lexer::{LexError, Lexer, Token, Tokenizer};

const TEST_STR: &str = "
    let name = \"maro\";
    let age = 16;

    let add = fn(x, y) {
      x + y;
    };

    let result = add(five, ten);
    !-/*5;
    5 < 10 > 5;
    
    if (5 < 10) {
      return true;
    } else {
      return false;
    }

    10 == 10;
    10 != 9;

    let x = \"abcd\";
    let y = \"\";
    let arr = arr[1, 2, 3];
    let y = arr[x];
    let x = {z: \"hello\", y: 1};
    ";

#[test]
fn test_tokens() {
    let test_token_vec: Vec<Token> = vec![
        Token::Let,
        Token::Identifiere(String::from("name")),
        Token::Assign,
        Token::String(String::from("maro")),
        Token::Semicolon,
        Token::Let,
        Token::Identifiere(String::from("age")),
        Token::Assign,
        Token::Integer(16),
        Token::Semicolon,
        Token::Let,
        Token::Identifiere(String::from("add")),
        Token::Assign,
        Token::Func,
        Token::LParen,
        Token::Identifiere(String::from("x")),
        Token::Comma,
        Token::Identifiere(String::from("y")),
        Token::RParen,
        Token::LBrace,
        Token::Identifiere(String::from("x")),
        Token::Plus,
        Token::Identifiere(String::from("y")),
        Token::Semicolon,
        Token::RBrace,
        Token::Semicolon,
        Token::Let,
        Token::Identifiere(String::from("result")),
        Token::Assign,
        Token::Identifiere(String::from("add")),
        Token::LParen,
        Token::Identifiere(String::from("five")),
        Token::Comma,
        Token::Identifiere(String::from("ten")),
        Token::RParen,
        Token::Semicolon,
        Token::Bang,
        Token::Minus,
        Token::Slash,
        Token::Asterisk,
        Token::Integer(5),
        Token::Semicolon,
        Token::Integer(5),
        Token::Lt,
        Token::Integer(10),
        Token::Gt,
        Token::Integer(5),
        Token::Semicolon,
        Token::If,
        Token::LParen,
        Token::Integer(5),
        Token::Lt,
        Token::Integer(10),
        Token::RParen,
        Token::LBrace,
        Token::Ret,
        Token::True,
        Token::Semicolon,
        Token::RBrace,
        Token::Else,
        Token::LBrace,
        Token::Ret,
        Token::False,
        Token::Semicolon,
        Token::RBrace,
        Token::Integer(10),
        Token::Eq,
        Token::Integer(10),
        Token::Semicolon,
        Token::Integer(10),
        Token::NotEq,
        Token::Integer(9),
        Token::Semicolon,
        Token::Let,
        Token::Identifiere(String::from("x")),
        Token::Assign,
        Token::String(String::from("abcd")),
        Token::Semicolon,
        Token::Let,
        Token::Identifiere(String::from("y")),
        Token::Assign,
        Token::String(String::from("")),
        Token::Semicolon,
        Token::Let,
        Token::Identifiere(String::from("arr")),
        Token::Assign,
        Token::Identifiere(String::from("arr")),
        Token::LBracket,
        Token::Integer(1),
        Token::Comma,
        Token::Integer(2),
        Token::Comma,
        Token::Integer(3),
        Token::RBracket,
        Token::Semicolon,
        Token::Let,
        Token::Identifiere(String::from("y")),
        Token::Assign,
        Token::Identifiere(String::from("arr")),
        Token::LBracket,
        Token::Identifiere(String::from("x")),
        Token::RBracket,
        Token::Semicolon,
        Token::Let,
        Token::Identifiere(String::from("x")),
        Token::Assign,
        Token::LBrace,
        Token::Identifiere(String::from("z")),
        Token::Colon,
        Token::String(String::from("hello")),
        Token::Comma,
        Token::Identifiere(String::from("y")),
        Token::Colon,
        Token::Integer(1),
        Token::RBrace,
        Token::Semicolon,
        Token::Eof,
    ];

    let mut lexer = Lexer::new(TEST_STR).unwrap();

    for test_token in test_token_vec.iter() {
        let token = lexer.next();
        assert_eq!(token, *test_token);
    }
}

#[test]
fn simple() {
    let input = "let name = \"marwan\";";
    let mut lexer = Lexer::new(input).unwrap();

    let test_tokens = vec![
        Token::Let,
        Token::Identifiere(String::from("name")),
        Token::Assign,
        Token::String(String::from("marwan")),
        Token::Semicolon,
    ];

    for test_token in test_tokens.iter() {
        let token = lexer.next();
        assert_eq!(token, *test_token);
    }
}

fn tokens_of(input: &str) -> Vec<Token> {
    let mut lexer = Lexer::new(input).unwrap();
    let mut tokens = vec![];
    loop {
        let token = lexer.next();
        if token == Token::Eof {
            return tokens;
        }
        tokens.push(token);
    }
}

#[test]
fn empty_text_has_no_tokens() {
    assert_eq!(tokens_of(""), vec![]);
    assert_eq!(tokens_of("  \t\r\n "), vec![]);
}

#[test]
fn end_of_input_repeats() {
    let mut lexer = Lexer::new("x").unwrap();
    assert_eq!(lexer.next(), Token::Identifiere(String::from("x")));
    assert_eq!(lexer.next(), Token::Eof);
    assert_eq!(lexer.next(), Token::Eof);
    assert_eq!(lexer.offset(), 1);
    assert_eq!(lexer.count(), 1);
}

#[test]
fn step_passes_over_a_token() {
    let mut lexer = Lexer::new("a b").unwrap();
    lexer.step();
    assert_eq!(lexer.offset(), 1);
    assert_eq!(lexer.next(), Token::Identifiere(String::from("b")));
    lexer.step();
    assert_eq!(lexer.offset(), 2);
    assert_eq!(lexer.next(), Token::Eof);
}

#[test]
fn peek_looks_ahead_without_handing_out() {
    let lexer = Lexer::new("a b").unwrap();
    assert_eq!(*lexer.peek(0), Token::Identifiere(String::from("a")));
    assert_eq!(*lexer.peek(1), Token::Identifiere(String::from("b")));
    assert_eq!(*lexer.peek(2), Token::Eof);
    assert_eq!(lexer.offset(), 0);
}

#[test]
fn two_character_operators() {
    assert_eq!(
        tokens_of("= == ! != =!"),
        vec![
            Token::Assign,
            Token::Eq,
            Token::Bang,
            Token::NotEq,
            Token::Assign,
            Token::Bang
        ]
    );
    assert_eq!(tokens_of("==="), vec![Token::Eq, Token::Assign]);
}

#[test]
fn operator_at_end_of_input_is_single() {
    assert_eq!(
        tokens_of("x ="),
        vec![Token::Identifiere(String::from("x")), Token::Assign]
    );
    assert_eq!(tokens_of("!"), vec![Token::Bang]);
}

#[test]
fn keywords_and_identifiers() {
    assert_eq!(
        tokens_of("if else fn let true false return"),
        vec![
            Token::If,
            Token::Else,
            Token::Func,
            Token::Let,
            Token::True,
            Token::False,
            Token::Ret
        ]
    );
    assert_eq!(
        tokens_of("iff letx fn_1 a_b2 Return"),
        vec![
            Token::Identifiere(String::from("iff")),
            Token::Identifiere(String::from("letx")),
            Token::Identifiere(String::from("fn_1")),
            Token::Identifiere(String::from("a_b2")),
            Token::Identifiere(String::from("Return")),
        ]
    );
}

#[test]
fn identifiers_beyond_ascii() {
    assert_eq!(
        tokens_of("caf\u{e9} \u{3b1}\u{3b2}1"),
        vec![
            Token::Identifiere(String::from("caf\u{e9}")),
            Token::Identifiere(String::from("\u{3b1}\u{3b2}1")),
        ]
    );
}

#[test]
fn blank_space_beyond_ascii_is_skipped() {
    assert_eq!(
        tokens_of("a\u{a0}b\u{2003}c"),
        vec![
            Token::Identifiere(String::from("a")),
            Token::Identifiere(String::from("b")),
            Token::Identifiere(String::from("c")),
        ]
    );
}

#[test]
fn digits_then_letters_are_two_tokens() {
    assert_eq!(
        tokens_of("12ab"),
        vec![Token::Integer(12), Token::Identifiere(String::from("ab"))]
    );
}

#[test]
fn integer_literals() {
    assert_eq!(tokens_of("0"), vec![Token::Integer(0)]);
    assert_eq!(tokens_of("007"), vec![Token::Integer(7)]);
    assert_eq!(
        tokens_of("9223372036854775807"),
        vec![Token::Integer(9223372036854775807)]
    );
    assert_eq!(
        tokens_of("-5"),
        vec![Token::Minus, Token::Integer(5)]
    );
}

#[test]
fn integer_literal_too_large() {
    assert_eq!(
        Lexer::new("1 + 9223372036854775808").err(),
        Some(LexError::IntegerTooLarge(4))
    );
    assert_eq!(
        Lexer::new("99999999999999999999999").err(),
        Some(LexError::IntegerTooLarge(0))
    );
}

#[test]
fn illegal_character() {
    assert_eq!(
        Lexer::new("let a = 1 @ 2").err(),
        Some(LexError::IllegalCharacter('@', 10))
    );
    assert_eq!(Lexer::new("#").err(), Some(LexError::IllegalCharacter('#', 0)));
    assert_eq!(
        Lexer::new("_x").err(),
        Some(LexError::IllegalCharacter('_', 0))
    );
    assert_eq!(
        Lexer::new("\u{b2}").err(),
        Some(LexError::IllegalCharacter('\u{b2}', 0))
    );
}

#[test]
fn string_literals() {
    assert_eq!(
        tokens_of("\"a b\" \"\""),
        vec![
            Token::String(String::from("a b")),
            Token::String(String::from(""))
        ]
    );
    assert_eq!(
        tokens_of("\"no \\ escapes\""),
        vec![Token::String(String::from("no \\ escapes"))]
    );
}

#[test]
fn unterminated_string_runs_to_the_end() {
    assert_eq!(
        tokens_of("x \"abc def"),
        vec![
            Token::Identifiere(String::from("x")),
            Token::String(String::from("abc def"))
        ]
    );
    assert_eq!(tokens_of("\""), vec![Token::String(String::from(""))]);
}

#[test]
fn tokenizer_hands_out_tokens_one_by_one() {
    let mut tokenizer = Tokenizer::new(" a+ 1");
    assert_eq!(
        tokenizer.next_token(),
        Ok(Some(Token::Identifiere(String::from("a"))))
    );
    assert_eq!(tokenizer.next_token(), Ok(Some(Token::Plus)));
    assert_eq!(tokenizer.next_token(), Ok(Some(Token::Integer(1))));
    assert_eq!(tokenizer.next_token(), Ok(None));
    assert_eq!(tokenizer.next_token(), Ok(None));
}

#[test]
fn token_text() {
    assert_eq!(Token::Eof.to_string(), "Eof");
    assert_eq!(Token::Identifiere(String::from("abc")).to_string(), "abc");
    assert_eq!(Token::String(String::from("s t")).to_string(), "s t");
    assert_eq!(Token::Integer(120).to_string(), "120");
    assert_eq!(Token::Integer(0).to_string(), "0");
    assert_eq!(Token::Integer(-45).to_string(), "-45");
    assert_eq!(
        Token::Integer(i64::MIN).to_string(),
        "-9223372036854775808"
    );
    assert_eq!(Token::Integer(i64::MAX).to_string(), "9223372036854775807");
    assert_eq!(Token::Ret.to_string(), "return");
    assert_eq!(Token::Func.to_string(), "fn");
    assert_eq!(Token::NotEq.to_string(), "!=");
    assert_eq!(Token::Colon.to_string(), ":");
    assert_eq!(crimson::lexer::from_string(&Token::LBracket), "[");
}

#[test]
fn token_copy_is_equal() {
    let token = Token::String(String::from("abc"));
    assert_eq!(token.clone(), token);
}
