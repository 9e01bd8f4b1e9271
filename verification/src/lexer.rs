//! The lexer: source text to the sequence of its tokens.

use crate::text::{
    decimal_int, decimal_value, digit, digit_value, integer_to_string, is_digit, is_letter,
    is_space, is_word_char, letter, push_char, space, word_char,
};
use vstd::prelude::*;

verus! {

/// One lexical unit of the language.
#[derive(Debug, PartialEq, Eq)]
pub enum Token {
    Eof,
    Identifiere(String),
    String(String),
    Integer(i64),
    Assign,
    Plus,
    Bang,
    Minus,
    Slash,
    Asterisk,
    Lt,
    Gt,
    Eq,
    NotEq,
    Comma,
    Colon,
    Let,
    True,
    False,
    If,
    Else,
    Ret,
    Semicolon,
    LParen,
    RParen,
    LBrace,
    RBrace,
    LBracket,
    RBracket,
    Func,
}

/// A token as a mathematical value: its text payload is a sequence of
/// characters.
pub enum TokenView {
    Eof,
    Identifiere(Seq<char>),
    String(Seq<char>),
    Integer(i64),
    Assign,
    Plus,
    Bang,
    Minus,
    Slash,
    Asterisk,
    Lt,
    Gt,
    Eq,
    NotEq,
    Comma,
    Colon,
    Let,
    True,
    False,
    If,
    Else,
    Ret,
    Semicolon,
    LParen,
    RParen,
    LBrace,
    RBrace,
    LBracket,
    RBracket,
    Func,
}

impl View for Token {
    type V = TokenView;

    open spec fn view(&self) -> TokenView {
        match self {
            Token::Eof => TokenView::Eof,
            Token::Identifiere(s) => TokenView::Identifiere(s@),
            Token::String(s) => TokenView::String(s@),
            Token::Integer(i) => TokenView::Integer(*i),
            Token::Assign => TokenView::Assign,
            Token::Plus => TokenView::Plus,
            Token::Bang => TokenView::Bang,
            Token::Minus => TokenView::Minus,
            Token::Slash => TokenView::Slash,
            Token::Asterisk => TokenView::Asterisk,
            Token::Lt => TokenView::Lt,
            Token::Gt => TokenView::Gt,
            Token::Eq => TokenView::Eq,
            Token::NotEq => TokenView::NotEq,
            Token::Comma => TokenView::Comma,
            Token::Colon => TokenView::Colon,
            Token::Let => TokenView::Let,
            Token::True => TokenView::True,
            Token::False => TokenView::False,
            Token::If => TokenView::If,
            Token::Else => TokenView::Else,
            Token::Ret => TokenView::Ret,
            Token::Semicolon => TokenView::Semicolon,
            Token::LParen => TokenView::LParen,
            Token::RParen => TokenView::RParen,
            Token::LBrace => TokenView::LBrace,
            Token::RBrace => TokenView::RBrace,
            Token::LBracket => TokenView::LBracket,
            Token::RBracket => TokenView::RBracket,
            Token::Func => TokenView::Func,
        }
    }
}

impl Clone for Token {
    fn clone(&self) -> (copy: Self)
        ensures
            copy@ == self@,
    {
        match self {
            Token::Eof => Token::Eof,
            Token::Identifiere(s) => Token::Identifiere(s.clone()),
            Token::String(s) => Token::String(s.clone()),
            Token::Integer(i) => Token::Integer(*i),
            Token::Assign => Token::Assign,
            Token::Plus => Token::Plus,
            Token::Bang => Token::Bang,
            Token::Minus => Token::Minus,
            Token::Slash => Token::Slash,
            Token::Asterisk => Token::Asterisk,
            Token::Lt => Token::Lt,
            Token::Gt => Token::Gt,
            Token::Eq => Token::Eq,
            Token::NotEq => Token::NotEq,
            Token::Comma => Token::Comma,
            Token::Colon => Token::Colon,
            Token::Let => Token::Let,
            Token::True => Token::True,
            Token::False => Token::False,
            Token::If => Token::If,
            Token::Else => Token::Else,
            Token::Ret => Token::Ret,
            Token::Semicolon => Token::Semicolon,
            Token::LParen => Token::LParen,
            Token::RParen => Token::RParen,
            Token::LBrace => Token::LBrace,
            Token::RBrace => Token::RBrace,
            Token::LBracket => Token::LBracket,
            Token::RBracket => Token::RBracket,
            Token::Func => Token::Func,
        }
    }
}

/// The text by which a token is shown: its payload for identifiers, strings
/// and integers, its spelling for the others.
pub open spec fn token_text(token: TokenView) -> Seq<char> {
    match token {
        TokenView::Eof => "Eof"@,
        TokenView::Identifiere(s) => s,
        TokenView::String(s) => s,
        TokenView::Integer(i) => decimal_int(i as int),
        TokenView::Assign => "="@,
        TokenView::Plus => "+"@,
        TokenView::Bang => "!"@,
        TokenView::Minus => "-"@,
        TokenView::Slash => "/"@,
        TokenView::Asterisk => "*"@,
        TokenView::Lt => "<"@,
        TokenView::Gt => ">"@,
        TokenView::Eq => "=="@,
        TokenView::NotEq => "!="@,
        TokenView::Comma => ","@,
        TokenView::Colon => ":"@,
        TokenView::Let => "let"@,
        TokenView::True => "true"@,
        TokenView::False => "false"@,
        TokenView::If => "if"@,
        TokenView::Else => "else"@,
        TokenView::Ret => "return"@,
        TokenView::Semicolon => ";"@,
        TokenView::LParen => "("@,
        TokenView::RParen => ")"@,
        TokenView::LBrace => "{"@,
        TokenView::RBrace => "}"@,
        TokenView::LBracket => "["@,
        TokenView::RBracket => "]"@,
        TokenView::Func => "fn"@,
    }
}

/// Shows a token as text.
pub fn from_string(token: &Token) -> (text: String)
    ensures
        text@ == token_text(token@),
{
    match token {
        Token::Eof => String::from_str("Eof"),
        Token::Identifiere(s) => s.clone(),
        Token::Integer(i) => integer_to_string(*i),
        Token::String(s) => s.clone(),
        Token::Assign => String::from_str("="),
        Token::Plus => String::from_str("+"),
        Token::Gt => String::from_str(">"),
        Token::Eq => String::from_str("=="),
        Token::NotEq => String::from_str("!="),
        Token::Comma => String::from_str(","),
        Token::Semicolon => String::from_str(";"),
        Token::Bang => String::from_str("!"),
        Token::Slash => String::from_str("/"),
        Token::Asterisk => String::from_str("*"),
        Token::Lt => String::from_str("<"),
        Token::Minus => String::from_str("-"),
        Token::Colon => String::from_str(":"),
        Token::LParen => String::from_str("("),
        Token::RParen => String::from_str(")"),
        Token::Func => String::from_str("fn"),
        Token::Let => String::from_str("let"),
        Token::True => String::from_str("true"),
        Token::False => String::from_str("false"),
        Token::If => String::from_str("if"),
        Token::Else => String::from_str("else"),
        Token::Ret => String::from_str("return"),
        Token::LBrace => String::from_str("{"),
        Token::RBrace => String::from_str("}"),
        Token::LBracket => String::from_str("["),
        Token::RBracket => String::from_str("]"),
    }
}

impl Token {
    /// Shows the token as text.
    pub fn to_string(&self) -> (text: String)
        ensures
            text@ == token_text(self@),
    {
        from_string(self)
    }
}

/// Why a text has no token sequence.
#[derive(Debug, Clone, Copy, PartialEq, Eq)]
pub enum LexError {
    /// A character that can start no token, with its index in the text.
    IllegalCharacter(char, usize),
    /// An integer literal beyond the largest integer, with the index of its
    /// first digit.
    IntegerTooLarge(usize),
}

/// The first index at or after `pos` that holds no blank space.
pub open spec fn skip_spaces(s: Seq<char>, pos: int) -> int
    decreases s.len() - pos,
{
    if 0 <= pos < s.len() && is_space(s[pos]) {
        skip_spaces(s, pos + 1)
    } else {
        pos
    }
}

/// The end of the run of word characters that starts at `pos`.
pub open spec fn word_end(s: Seq<char>, pos: int) -> int
    decreases s.len() - pos,
{
    if 0 <= pos < s.len() && is_word_char(s[pos]) {
        word_end(s, pos + 1)
    } else {
        pos
    }
}

/// The end of the run of digits that starts at `pos`.
pub open spec fn digits_end(s: Seq<char>, pos: int) -> int
    decreases s.len() - pos,
{
    if 0 <= pos < s.len() && is_digit(s[pos]) {
        digits_end(s, pos + 1)
    } else {
        pos
    }
}

/// The index of the first double quote at or after `pos`, or the length of
/// the text if there is none.
pub open spec fn quote_at(s: Seq<char>, pos: int) -> int
    decreases s.len() - pos,
{
    if 0 <= pos < s.len() && s[pos] != '"' {
        quote_at(s, pos + 1)
    } else {
        pos
    }
}

/// The token that a word is: one of the seven keywords, or else an identifier.
pub open spec fn word_token(word: Seq<char>) -> TokenView {
    if word == "if"@ {
        TokenView::If
    } else if word == "else"@ {
        TokenView::Else
    } else if word == "fn"@ {
        TokenView::Func
    } else if word == "let"@ {
        TokenView::Let
    } else if word == "true"@ {
        TokenView::True
    } else if word == "false"@ {
        TokenView::False
    } else if word == "return"@ {
        TokenView::Ret
    } else {
        TokenView::Identifiere(word)
    }
}

/// The token that a one-character punctuation mark is, if it is one.
pub open spec fn punctuation(c: char) -> Option<TokenView> {
    if c == '(' {
        Some(TokenView::LParen)
    } else if c == ')' {
        Some(TokenView::RParen)
    } else if c == '[' {
        Some(TokenView::LBracket)
    } else if c == ']' {
        Some(TokenView::RBracket)
    } else if c == '{' {
        Some(TokenView::LBrace)
    } else if c == '}' {
        Some(TokenView::RBrace)
    } else if c == '+' {
        Some(TokenView::Plus)
    } else if c == '-' {
        Some(TokenView::Minus)
    } else if c == '/' {
        Some(TokenView::Slash)
    } else if c == '*' {
        Some(TokenView::Asterisk)
    } else if c == '<' {
        Some(TokenView::Lt)
    } else if c == '>' {
        Some(TokenView::Gt)
    } else if c == ',' {
        Some(TokenView::Comma)
    } else if c == ':' {
        Some(TokenView::Colon)
    } else if c == ';' {
        Some(TokenView::Semicolon)
    } else {
        None
    }
}

/// What the text holds from a position on: a token and the position after it,
/// nothing but blank space, or something that is no token.
pub enum Lexeme {
    Token(TokenView, int),
    End,
    Illegal(LexError),
}

/// The first lexeme of `s` at or after `pos`.
///
/// Blank space is skipped. Then a punctuation mark is its token; `=` and `!`
/// join a directly following `=`; a double quote opens a string that runs to
/// the next double quote, or to the end of the text if there is none; a
/// letter opens a word, which runs on through word characters; a digit opens
/// an integer literal, which runs on through digits and must not exceed the
/// largest integer. Any other character is illegal.
pub open spec fn lexeme_at(s: Seq<char>, pos: int) -> Lexeme {
    let start = skip_spaces(s, pos);
    if !(0 <= start < s.len()) {
        Lexeme::End
    } else {
        let c = s[start];
        if punctuation(c) is Some {
            Lexeme::Token(punctuation(c)->0, start + 1)
        } else if c == '=' {
            if start + 1 < s.len() && s[start + 1] == '=' {
                Lexeme::Token(TokenView::Eq, start + 2)
            } else {
                Lexeme::Token(TokenView::Assign, start + 1)
            }
        } else if c == '!' {
            if start + 1 < s.len() && s[start + 1] == '=' {
                Lexeme::Token(TokenView::NotEq, start + 2)
            } else {
                Lexeme::Token(TokenView::Bang, start + 1)
            }
        } else if c == '"' {
            let close = quote_at(s, start + 1);
            Lexeme::Token(
                TokenView::String(s.subrange(start + 1, close)),
                if close < s.len() {
                    close + 1
                } else {
                    close
                },
            )
        } else if is_letter(c) {
            let end = word_end(s, start + 1);
            Lexeme::Token(word_token(s.subrange(start, end)), end)
        } else if is_digit(c) {
            let end = digits_end(s, start);
            let value = decimal_value(s.subrange(start, end));
            if value <= i64::MAX {
                Lexeme::Token(TokenView::Integer(value as i64), end)
            } else {
                Lexeme::Illegal(LexError::IntegerTooLarge(start as usize))
            }
        } else {
            Lexeme::Illegal(LexError::IllegalCharacter(c, start as usize))
        }
    }
}

/// The skipping of blank space stops at or after its start, within the
/// text.
pub proof fn lemma_skip_spaces_bounds(s: Seq<char>, pos: int)
    requires
        0 <= pos <= s.len(),
    ensures
        pos <= skip_spaces(s, pos) <= s.len(),
    decreases s.len() - pos,
{
    if pos < s.len() && is_space(s[pos]) {
        lemma_skip_spaces_bounds(s, pos + 1);
    }
}

/// A word ends at or after its start, within the text.
pub proof fn lemma_word_end_bounds(s: Seq<char>, pos: int)
    requires
        0 <= pos <= s.len(),
    ensures
        pos <= word_end(s, pos) <= s.len(),
    decreases s.len() - pos,
{
    if pos < s.len() && is_word_char(s[pos]) {
        lemma_word_end_bounds(s, pos + 1);
    }
}

/// A run of digits ends at or after its start, within the text, and after
/// its start if there is a digit there.
pub proof fn lemma_digits_end_bounds(s: Seq<char>, pos: int)
    requires
        0 <= pos <= s.len(),
    ensures
        pos <= digits_end(s, pos) <= s.len(),
        pos < s.len() && is_digit(s[pos]) ==> pos < digits_end(s, pos),
    decreases s.len() - pos,
{
    if pos < s.len() && is_digit(s[pos]) {
        lemma_digits_end_bounds(s, pos + 1);
    }
}

/// The search for a double quote ends at or after its start, within the
/// text.
pub proof fn lemma_quote_at_bounds(s: Seq<char>, pos: int)
    requires
        0 <= pos <= s.len(),
    ensures
        pos <= quote_at(s, pos) <= s.len(),
    decreases s.len() - pos,
{
    if pos < s.len() && s[pos] != '"' {
        lemma_quote_at_bounds(s, pos + 1);
    }
}

/// A token ends after the position that the search for it started from, and
/// within the text.
pub proof fn lemma_lexeme_advances(s: Seq<char>, pos: int)
    requires
        0 <= pos <= s.len(),
    ensures
        lexeme_at(s, pos) matches Lexeme::Token(_, next) ==> pos < next <= s.len(),
{
    lemma_skip_spaces_bounds(s, pos);
    let start = skip_spaces(s, pos);
    if start < s.len() {
        lemma_quote_at_bounds(s, start + 1);
        lemma_word_end_bounds(s, start + 1);
        lemma_digits_end_bounds(s, start);
    }
}

/// The tokens of `s` from `pos` on, in order; or the first thing in it that
/// is no token.
pub open spec fn tokens_from(s: Seq<char>, pos: int) -> Result<Seq<TokenView>, LexError>
    decreases s.len() - pos,
    when 0 <= pos <= s.len()
    via tokens_from_decreases
{
    match lexeme_at(s, pos) {
        Lexeme::End => Ok(Seq::empty()),
        Lexeme::Illegal(error) => Err(error),
        Lexeme::Token(token, next) => match tokens_from(s, next) {
            Ok(rest) => Ok(seq![token] + rest),
            Err(error) => Err(error),
        },
    }
}

#[via_fn]
proof fn tokens_from_decreases(s: Seq<char>, pos: int) {
    lemma_lexeme_advances(s, pos);
}

/// The token sequence of a whole text.
pub open spec fn tokenize(s: Seq<char>) -> Result<Seq<TokenView>, LexError> {
    tokens_from(s, 0)
}

/// Reading a numeral one digit further multiplies its value by ten and adds
/// the digit.
pub proof fn lemma_decimal_value_step(s: Seq<char>, start: int, end: int)
    requires
        0 <= start <= end < s.len(),
        is_digit(s[end]),
    ensures
        decimal_value(s.subrange(start, end + 1)) == decimal_value(s.subrange(start, end)) * 10
            + digit_value(s[end]),
{
    let longer = s.subrange(start, end + 1);
    assert(longer.drop_last() =~= s.subrange(start, end));
    assert(longer.last() == s[end]);
}

/// Whether a text is spelled exactly as a literal.
fn spelled(word: &String, literal: &str) -> (same: bool)
    ensures
        same == (word@ == literal@),
{
    let other = String::from_str(literal);
    *word == other
}

/// The state of a scan: the characters of the text and a position in it.
pub struct Tokenizer {
    chars: Vec<char>,
    pos: usize,
}

impl Tokenizer {
    /// The text being scanned.
    pub closed spec fn text(&self) -> Seq<char> {
        self.chars@
    }

    /// The index of the next character to look at.
    pub closed spec fn position(&self) -> int {
        self.pos as int
    }

    /// The position lies within the text, or at its end.
    pub closed spec fn wf(&self) -> bool {
        self.pos <= self.chars.len()
    }

    /// Starts a scan at the beginning of `input`.
    pub fn new(input: &str) -> (tokenizer: Self)
        ensures
            tokenizer.wf(),
            tokenizer.text() == input@,
            tokenizer.position() == 0,
    {
        let mut chars: Vec<char> = Vec::new();
        for c in it: input.chars()
            invariant
                chars@ == it.seq().take(it.index() as int),
                it.seq() == input@,
        {
            chars.push(c);
        }
        Tokenizer { chars, pos: 0 }
    }

    /// The character at the position, if the text has not ended.
    fn current(&self) -> (c: Option<char>)
        requires
            self.wf(),
        ensures
            c == if self.position() < self.text().len() {
                Some(self.text()[self.position()])
            } else {
                None
            },
    {
        if self.pos < self.chars.len() {
            Some(self.chars[self.pos])
        } else {
            None
        }
    }

    /// Steps over one character, if there is one, and gives the character
    /// that is then at the position.
    fn advance_char(&mut self) -> (c: Option<char>)
        requires
            old(self).wf(),
        ensures
            final(self).wf(),
            final(self).text() == old(self).text(),
            final(self).position() == if old(self).position() < old(self).text().len() {
                old(self).position() + 1
            } else {
                old(self).position()
            },
            c == if final(self).position() < final(self).text().len() {
                Some(final(self).text()[final(self).position()])
            } else {
                None
            },
    {
        if self.pos < self.chars.len() {
            self.pos = self.pos + 1;
        }
        self.current()
    }

    /// Steps over the one character of a token and gives the token.
    fn consume(&mut self, t: Token) -> (token: Option<Token>)
        requires
            old(self).wf(),
            old(self).position() < old(self).text().len(),
        ensures
            final(self).wf(),
            final(self).text() == old(self).text(),
            final(self).position() == old(self).position() + 1,
            token == Some(t),
    {
        self.advance_char();
        Some(t)
    }

    /// Steps over a character that may be the first of a two-character
    /// token: gives `compound` and steps over the second character too if
    /// that is `expected`, gives `single` if not.
    fn match_compound_token(&mut self, expected: char, compound: Token, single: Token) -> (token:
        Option<Token>)
        requires
            old(self).wf(),
            old(self).position() < old(self).text().len(),
        ensures
            final(self).wf(),
            final(self).text() == old(self).text(),
            ({
                let p = old(self).position();
                let s = old(self).text();
                if p + 1 < s.len() && s[p + 1] == expected {
                    token == Some(compound) && final(self).position() == p + 2
                } else {
                    token == Some(single) && final(self).position() == p + 1
                }
            }),
    {
        match self.advance_char() {
            Some(c) => {
                if c == expected {
                    self.consume(compound)
                } else {
                    Some(single)
                }
            },
            None => Some(single),
        }
    }

    /// Steps over the blank space at the position.
    fn skip_whitespace(&mut self)
        requires
            old(self).wf(),
        ensures
            final(self).wf(),
            final(self).text() == old(self).text(),
            final(self).position() == skip_spaces(old(self).text(), old(self).position()),
    {
        while self.pos < self.chars.len() && space(self.chars[self.pos])
            invariant
                self.wf(),
                self.chars@ == old(self).chars@,
                skip_spaces(self.chars@, self.pos as int) == skip_spaces(
                    old(self).chars@,
                    old(self).pos as int,
                ),
            decreases self.chars.len() - self.pos,
        {
            self.pos = self.pos + 1;
        }
    }

    /// Reads a word: steps over the letter at the position and the word
    /// characters after it, and gives them.
    fn is_keyword(&mut self) -> (word: String)
        requires
            old(self).wf(),
            old(self).position() < old(self).text().len(),
        ensures
            final(self).wf(),
            final(self).text() == old(self).text(),
            final(self).position() == word_end(old(self).text(), old(self).position() + 1),
            word@ == old(self).text().subrange(old(self).position(), final(self).position()),
    {
        let mut word = String::new();
        push_char(&mut word, self.chars[self.pos]);
        let ghost start = self.pos as int;
        self.pos = self.pos + 1;
        proof {
            assert(word@ =~= self.chars@.subrange(start, start + 1));
        }
        while self.pos < self.chars.len() && word_char(self.chars[self.pos])
            invariant
                self.wf(),
                self.chars@ == old(self).chars@,
                start == old(self).pos,
                start < self.pos,
                word_end(self.chars@, self.pos as int) == word_end(self.chars@, start + 1),
                word@ == self.chars@.subrange(start, self.pos as int),
            decreases self.chars.len() - self.pos,
        {
            push_char(&mut word, self.chars[self.pos]);
            self.pos = self.pos + 1;
            proof {
                assert(word@ =~= self.chars@.subrange(start, self.pos as int));
            }
        }
        word
    }

    /// Reads a string literal: steps over the opening quote at the position,
    /// the characters up to the next quote and that quote, and gives the
    /// characters between. Without a closing quote the literal runs to the end
    /// of the text.
    fn is_string(&mut self) -> (contents: String)
        requires
            old(self).wf(),
            old(self).position() < old(self).text().len(),
        ensures
            final(self).wf(),
            final(self).text() == old(self).text(),
            ({
                let s = old(self).text();
                let open = old(self).position();
                let close = quote_at(s, open + 1);
                &&& contents@ == s.subrange(open + 1, close)
                &&& final(self).position() == if close < s.len() {
                    close + 1
                } else {
                    close
                }
            }),
    {
        let ghost open = self.pos as int;
        self.advance_char();
        let mut contents = String::new();
        proof {
            assert(contents@ =~= self.chars@.subrange(open + 1, open + 1));
        }
        while self.pos < self.chars.len() && self.chars[self.pos] != '"'
            invariant
                self.wf(),
                self.chars@ == old(self).chars@,
                open == old(self).pos,
                open < self.pos,
                quote_at(self.chars@, self.pos as int) == quote_at(self.chars@, open + 1),
                contents@ == self.chars@.subrange(open + 1, self.pos as int),
            decreases self.chars.len() - self.pos,
        {
            push_char(&mut contents, self.chars[self.pos]);
            self.pos = self.pos + 1;
            proof {
                assert(contents@ =~= self.chars@.subrange(open + 1, self.pos as int));
            }
        }
        self.advance_char();
        contents
    }

    /// Reads an integer literal: steps over the digits at the position and
    /// gives the number they denote, or nothing if it exceeds the largest
    /// integer.
    fn is_number(&mut self) -> (number: Option<i64>)
        requires
            old(self).wf(),
        ensures
            final(self).wf(),
            final(self).text() == old(self).text(),
            final(self).position() == digits_end(old(self).text(), old(self).position()),
            ({
                let value = decimal_value(
                    old(self).text().subrange(old(self).position(), final(self).position()),
                );
                number == if value <= i64::MAX {
                    Some(value as i64)
                } else {
                    None
                }
            }),
    {
        let ghost start = self.pos as int;
        let mut value: i64 = 0;
        let mut fits = true;
        proof {
            assert(self.chars@.subrange(start, start).len() == 0);
        }
        while self.pos < self.chars.len() && digit(self.chars[self.pos])
            invariant
                self.wf(),
                self.chars@ == old(self).chars@,
                start == old(self).pos,
                start <= self.pos,
                digits_end(self.chars@, self.pos as int) == digits_end(self.chars@, start),
                0 <= value,
                fits ==> value == decimal_value(self.chars@.subrange(start, self.pos as int)),
                !fits ==> decimal_value(self.chars@.subrange(start, self.pos as int)) > i64::MAX,
            decreases self.chars.len() - self.pos,
        {
            let c = self.chars[self.pos];
            let d: i64 = (c as u32 - '0' as u32) as i64;
            proof {
                lemma_decimal_value_step(self.chars@, start, self.pos as int);
            }
            if fits {
                if value > (i64::MAX - d) / 10 {
                    fits = false;
                } else {
                    value = value * 10 + d;
                }
            }
            self.pos = self.pos + 1;
        }
        if fits {
            Some(value)
        } else {
            None
        }
    }

    /// Reads the next token.
    ///
    /// Gives the first lexeme at or after the position: the token, with the
    /// position moved past it; nothing when only blank space is left; or
    /// the error when what comes next is no token.
    pub fn next_token(&mut self) -> (step: Result<Option<Token>, LexError>)
        requires
            old(self).wf(),
        ensures
            final(self).wf(),
            final(self).text() == old(self).text(),
            match lexeme_at(old(self).text(), old(self).position()) {
                Lexeme::Token(token, next) => {
                    &&& step matches Ok(Some(found))
                    &&& found@ == token
                    &&& final(self).position() == next
                },
                Lexeme::End => step == Ok::<Option<Token>, LexError>(None),
                Lexeme::Illegal(error) => step == Err::<Option<Token>, LexError>(error),
            },
    {
        self.skip_whitespace();
        proof {
            lemma_skip_spaces_bounds(old(self).text(), old(self).position());
        }
        let c = match self.current() {
            Some(c) => c,
            None => {
                return Ok(None);
            },
        };
        let ghost start = self.pos as int;
        if c == '(' {
            Ok(self.consume(Token::LParen))
        } else if c == ')' {
            Ok(self.consume(Token::RParen))
        } else if c == '[' {
            Ok(self.consume(Token::LBracket))
        } else if c == ']' {
            Ok(self.consume(Token::RBracket))
        } else if c == '{' {
            Ok(self.consume(Token::LBrace))
        } else if c == '}' {
            Ok(self.consume(Token::RBrace))
        } else if c == '+' {
            Ok(self.consume(Token::Plus))
        } else if c == '-' {
            Ok(self.consume(Token::Minus))
        } else if c == '/' {
            Ok(self.consume(Token::Slash))
        } else if c == '*' {
            Ok(self.consume(Token::Asterisk))
        } else if c == '<' {
            Ok(self.consume(Token::Lt))
        } else if c == '>' {
            Ok(self.consume(Token::Gt))
        } else if c == ',' {
            Ok(self.consume(Token::Comma))
        } else if c == ':' {
            Ok(self.consume(Token::Colon))
        } else if c == ';' {
            Ok(self.consume(Token::Semicolon))
        } else if c == '=' {
            Ok(self.match_compound_token('=', Token::Eq, Token::Assign))
        } else if c == '!' {
            Ok(self.match_compound_token('=', Token::NotEq, Token::Bang))
        } else if c == '"' {
            Ok(Some(Token::String(self.is_string())))
        } else if letter(c) {
            let result = self.is_keyword();
            if spelled(&result, "if") {
                Ok(Some(Token::If))
            } else if spelled(&result, "else") {
                Ok(Some(Token::Else))
            } else if spelled(&result, "fn") {
                Ok(Some(Token::Func))
            } else if spelled(&result, "let") {
                Ok(Some(Token::Let))
            } else if spelled(&result, "true") {
                Ok(Some(Token::True))
            } else if spelled(&result, "false") {
                Ok(Some(Token::False))
            } else if spelled(&result, "return") {
                Ok(Some(Token::Ret))
            } else {
                Ok(Some(Token::Identifiere(result)))
            }
        } else if digit(c) {
            let at = self.pos;
            match self.is_number() {
                Some(value) => Ok(Some(Token::Integer(value))),
                None => Err(LexError::IntegerTooLarge(at)),
            }
        } else {
            Err(LexError::IllegalCharacter(c, self.pos))
        }
    }
}

/// The tokens of a text, handed out one at a time.
pub struct Lexer {
    tokens: Vec<Token>,
    pos: usize,
}

/// The token at an index of a sequence, and the end-of-input token beyond it.
pub open spec fn token_at(tokens: Seq<TokenView>, index: int) -> TokenView {
    if 0 <= index < tokens.len() {
        tokens[index]
    } else {
        TokenView::Eof
    }
}

impl Lexer {
    /// All tokens of the text, those already handed out too.
    pub closed spec fn tokens(&self) -> Seq<TokenView> {
        self.tokens@.map_values(|t: Token| t@)
    }

    /// How many tokens have been handed out.
    pub closed spec fn position(&self) -> int {
        self.pos as int
    }

    /// The position lies within the tokens, or at their end.
    pub closed spec fn wf(&self) -> bool {
        self.pos <= self.tokens.len()
    }

    /// Cuts a text into its tokens.
    ///
    /// Succeeds exactly when the text has a token sequence, and then holds
    /// that sequence with nothing handed out yet; fails with the first thing
    /// in the text that is no token otherwise.
    pub fn new(input: &str) -> (lexer: Result<Box<Self>, LexError>)
        ensures
            match tokenize(input@) {
                Ok(tokens) => {
                    &&& lexer matches Ok(made)
                    &&& made.wf()
                    &&& made.tokens() == tokens
                    &&& made.position() == 0
                },
                Err(error) => lexer == Err::<Box<Self>, LexError>(error),
            },
    {
        let mut tokenizer = Tokenizer::new(input);
        let mut tokens: Vec<Token> = Vec::new();
        let ghost text = input@;
        loop
            invariant
                tokenizer.wf(),
                tokenizer.text() == text,
                text == input@,
                0 <= tokenizer.position() <= text.len(),
                match tokens_from(text, tokenizer.position()) {
                    Ok(rest) => tokenize(text) == Ok::<Seq<TokenView>, LexError>(
                        tokens@.map_values(|t: Token| t@) + rest,
                    ),
                    Err(error) => tokenize(text) == Err::<Seq<TokenView>, LexError>(error),
                },
            decreases text.len() - tokenizer.position(),
        {
            proof {
                lemma_lexeme_advances(text, tokenizer.position());
            }
            let ghost before = tokens@.map_values(|t: Token| t@);
            match tokenizer.next_token() {
                Ok(Some(token)) => {
                    tokens.push(token);
                    proof {
                        let now = tokens@.map_values(|t: Token| t@);
                        assert(now =~= before.push(token@));
                        match tokens_from(text, tokenizer.position()) {
                            Ok(rest) => {
                                assert(before + (seq![token@] + rest) =~= now + rest);
                            },
                            Err(_) => {},
                        }
                    }
                },
                Ok(None) => {
                    proof {
                        assert(before + Seq::<TokenView>::empty() =~= before);
                    }
                    return Ok(Box::new(Lexer { tokens, pos: 0 }));
                },
                Err(error) => {
                    return Err(error);
                },
            }
        }
    }

    /// Hands out the next token, and the end-of-input token once all have
    /// been handed out.
    pub fn next(&mut self) -> (token: Token)
        requires
            old(self).wf(),
        ensures
            final(self).wf(),
            final(self).tokens() == old(self).tokens(),
            token@ == token_at(old(self).tokens(), old(self).position()),
            final(self).position() == if old(self).position() < old(self).tokens().len() {
                old(self).position() + 1
            } else {
                old(self).position()
            },
    {
        if self.pos < self.tokens.len() {
            let token = self.tokens[self.pos].clone();
            self.pos = self.pos + 1;
            token
        } else {
            Token::Eof
        }
    }

    /// Passes over the next token without handing it out. Once all have
    /// been handed out nothing changes.
    pub fn step(&mut self)
        requires
            old(self).wf(),
        ensures
            final(self).wf(),
            final(self).tokens() == old(self).tokens(),
            final(self).position() == if old(self).position() < old(self).tokens().len() {
                old(self).position() + 1
            } else {
                old(self).position()
            },
    {
        if self.pos < self.tokens.len() {
            self.pos = self.pos + 1;
        }
    }

    /// The token `ahead` places after the next one to be handed out, without
    /// handing anything out.
    pub fn peek(&self, ahead: usize) -> (token: &Token)
        requires
            self.wf(),
        ensures
            token@ == token_at(self.tokens(), self.position() + ahead),
    {
        if ahead < self.tokens.len() - self.pos {
            &self.tokens[self.pos + ahead]
        } else {
            &Token::Eof
        }
    }

    /// The number of tokens already handed out.
    pub fn offset(&self) -> (position: usize)
        ensures
            position == self.position(),
    {
        self.pos
    }

    /// The number of tokens, those already handed out too.
    pub fn count(&self) -> (count: usize)
        ensures
            count == self.tokens().len(),
    {
        self.tokens.len()
    }

    /// The position never passes the end of the tokens.
    pub proof fn lemma_position_in_range(&self)
        requires
            self.wf(),
        ensures
            0 <= self.position() <= self.tokens().len(),
    {
    }
}

} // verus!
