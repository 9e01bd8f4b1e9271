//! Reading the spelling back: the lexer finds in the text of a token the
//! token itself.

use crate::ast::{infix_text, prefix_text, Infix, Prefix};
use crate::lexer::{
    digits_end, lemma_lexeme_advances, lexeme_at, punctuation, quote_at, skip_spaces, tokens_from,
    word_end, word_token, Lexeme, LexError, TokenView,
};
use crate::text::{
    decimal_nat, decimal_value, digit_char, digit_value, is_digit, is_letter, is_space,
    is_word_char,
};
use crate::writing::{
    holds, infix_token, lemma_holds_index, lemma_holds_split, lemma_holds_subrange, prefix_token,
};
use vstd::prelude::*;

verus! {

/// Tokens, and then what a rest of the text gave.
pub open spec fn followed(tokens: Seq<TokenView>, rest: Result<Seq<TokenView>, LexError>) -> Result<
    Seq<TokenView>,
    LexError,
> {
    match rest {
        Ok(more) => Ok(tokens + more),
        Err(error) => Err(error),
    }
}

/// Whether the `length` characters of `s` from `pos` on are read as the
/// tokens `tokens`: the token sequence from `pos` on is these tokens and then
/// what the text after the characters gives.
pub open spec fn lexes(s: Seq<char>, pos: int, length: int, tokens: Seq<TokenView>) -> bool {
    &&& 0 <= pos
    &&& 0 <= length
    &&& pos + length <= s.len()
    &&& tokens_from(s, pos) == followed(tokens, tokens_from(s, pos + length))
}

/// Whether a word or a numeral that ends before `pos` ends there for the
/// lexer too: the text ends at `pos`, or the character there continues no
/// word.
pub open spec fn breaks(s: Seq<char>, pos: int) -> bool {
    pos >= s.len() || !is_word_char(s[pos])
}

/// Two stretches that are read one after the other are read as one.
pub proof fn lemma_lexes_join(
    s: Seq<char>,
    pos: int,
    first: int,
    first_tokens: Seq<TokenView>,
    second: int,
    second_tokens: Seq<TokenView>,
)
    requires
        lexes(s, pos, first, first_tokens),
        lexes(s, pos + first, second, second_tokens),
    ensures
        lexes(s, pos, first + second, first_tokens + second_tokens),
{
    match tokens_from(s, pos + first + second) {
        Ok(more) => {
            assert(first_tokens + (second_tokens + more) =~= (first_tokens + second_tokens)
                + more);
        },
        Err(_) => {},
    }
}

/// A token that the lexer finds at a position is what the text up to the
/// end of the token is read as.
pub proof fn lemma_token_lexes(s: Seq<char>, pos: int, token: TokenView, next: int)
    requires
        0 <= pos <= s.len(),
        lexeme_at(s, pos) == Lexeme::Token(token, next),
    ensures
        pos < next <= s.len(),
        lexes(s, pos, next - pos, seq![token]),
{
    lemma_lexeme_advances(s, pos);
}

/// A space before a stretch is read as nothing.
pub proof fn lemma_space_lexes(s: Seq<char>, pos: int, length: int, tokens: Seq<TokenView>)
    requires
        0 <= pos < s.len(),
        s[pos] == ' ',
        lexes(s, pos + 1, length, tokens),
    ensures
        lexes(s, pos, length + 1, tokens),
{
    assert(skip_spaces(s, pos) == skip_spaces(s, pos + 1));
    assert(lexeme_at(s, pos) == lexeme_at(s, pos + 1));
    lemma_lexeme_advances(s, pos);
    lemma_lexeme_advances(s, pos + 1);
    assert(tokens_from(s, pos) == tokens_from(s, pos + 1));
}

/// A punctuation mark is read as its token.
pub proof fn lemma_punctuation_lexes(s: Seq<char>, pos: int, c: char, token: TokenView)
    requires
        0 <= pos < s.len(),
        s[pos] == c,
        punctuation(c) == Some(token),
    ensures
        lexes(s, pos, 1, seq![token]),
{
    assert(!is_space(c));
    assert(skip_spaces(s, pos) == pos);
    assert(lexeme_at(s, pos) == Lexeme::Token(token, pos + 1));
    lemma_token_lexes(s, pos, token, pos + 1);
}

/// An equals sign before a space is read as the assignment token.
pub proof fn lemma_assign_lexes(s: Seq<char>, pos: int)
    requires
        0 <= pos,
        pos + 1 < s.len(),
        s[pos] == '=',
        s[pos + 1] == ' ',
    ensures
        lexes(s, pos, 1, seq![TokenView::Assign]),
{
    assert(skip_spaces(s, pos) == pos);
    assert(lexeme_at(s, pos) == Lexeme::Token(TokenView::Assign, pos + 1));
    lemma_token_lexes(s, pos, TokenView::Assign, pos + 1);
}

/// A run of word characters that ends where no word goes on is where a word
/// ends.
pub proof fn lemma_word_run(s: Seq<char>, from: int, to: int)
    requires
        0 <= from <= to <= s.len(),
        forall|i: int| from <= i < to ==> is_word_char(#[trigger] s[i]),
        breaks(s, to),
    ensures
        word_end(s, from) == to,
    decreases to - from,
{
    if from < to {
        lemma_word_run(s, from + 1, to);
    }
}

/// A run of digits that ends where no numeral goes on is where a numeral
/// ends.
pub proof fn lemma_digit_run(s: Seq<char>, from: int, to: int)
    requires
        0 <= from <= to <= s.len(),
        forall|i: int| from <= i < to ==> is_digit(#[trigger] s[i]),
        to >= s.len() || !is_digit(s[to]),
    ensures
        digits_end(s, from) == to,
    decreases to - from,
{
    if from < to {
        lemma_digit_run(s, from + 1, to);
    }
}

/// A run of characters other than the double quote that ends at a double
/// quote is where a string ends.
pub proof fn lemma_quote_run(s: Seq<char>, from: int, to: int)
    requires
        0 <= from <= to < s.len(),
        forall|i: int| from <= i < to ==> #[trigger] s[i] != '"',
        s[to] == '"',
    ensures
        quote_at(s, from) == to,
    decreases to - from,
{
    if from < to {
        lemma_quote_run(s, from + 1, to);
    }
}

/// Whether a word is spelled as the lexer reads words: a letter that is no
/// blank space, then word characters.
pub open spec fn is_word(word: Seq<char>) -> bool {
    &&& word.len() > 0
    &&& is_letter(word[0])
    &&& !is_space(word[0])
    &&& forall|i: int| 1 <= i < word.len() ==> is_word_char(#[trigger] word[i])
}

/// A word is read as its token.
pub proof fn lemma_word_lexes(s: Seq<char>, pos: int, word: Seq<char>)
    requires
        is_word(word),
        holds(s, pos, word),
        breaks(s, pos + word.len()),
    ensures
        lexes(s, pos, word.len() as int, seq![word_token(word)]),
{
    let end = pos + word.len();
    lemma_holds_subrange(s, pos, word);
    lemma_holds_index(s, pos, word, 0);
    assert forall|i: int| pos + 1 <= i < end implies is_word_char(#[trigger] s[i]) by {
        lemma_holds_index(s, pos, word, i - pos);
    }
    lemma_word_run(s, pos + 1, end);
    let c = s[pos];
    assert(skip_spaces(s, pos) == pos);
    assert(punctuation(c) is None);
    assert(c != '=' && c != '!' && c != '"');
    assert(lexeme_at(s, pos) == Lexeme::Token(word_token(word), end));
    lemma_token_lexes(s, pos, word_token(word), end);
}

/// The numeral of a number holds digits only, and at least one.
pub proof fn lemma_numeral_digits(n: nat)
    ensures
        decimal_nat(n).len() > 0,
        forall|i: int| 0 <= i < decimal_nat(n).len() ==> is_digit(#[trigger] decimal_nat(n)[i]),
    decreases n,
{
    if n >= 10 {
        lemma_numeral_digits(n / 10);
    }
}

/// The numeral of a number denotes the number.
pub proof fn lemma_numeral_value(n: nat)
    ensures
        decimal_value(decimal_nat(n)) == n,
    decreases n,
{
    if n < 10 {
        let numeral = decimal_nat(n);
        assert(numeral.drop_last() =~= Seq::<char>::empty());
        assert(decimal_value(numeral.drop_last()) == 0);
        assert(digit_value(digit_char(n as int)) == n);
    } else {
        lemma_numeral_value(n / 10);
        let numeral = decimal_nat(n);
        assert(numeral.drop_last() =~= decimal_nat(n / 10));
        assert(numeral.last() == digit_char((n % 10) as int));
        assert(digit_value(digit_char((n % 10) as int)) == n % 10);
    }
}

/// The numeral of an integer that is not negative is read as the integer.
pub proof fn lemma_integer_lexes(s: Seq<char>, pos: int, i: i64)
    requires
        i >= 0,
        holds(s, pos, decimal_nat(i as nat)),
        breaks(s, pos + decimal_nat(i as nat).len()),
    ensures
        lexes(s, pos, decimal_nat(i as nat).len() as int, seq![TokenView::Integer(i)]),
{
    let numeral = decimal_nat(i as nat);
    let end = pos + numeral.len();
    lemma_numeral_digits(i as nat);
    lemma_numeral_value(i as nat);
    lemma_holds_subrange(s, pos, numeral);
    assert forall|k: int| pos <= k < end implies is_digit(#[trigger] s[k]) by {
        lemma_holds_index(s, pos, numeral, k - pos);
    }
    lemma_digit_run(s, pos, end);
    let c = s[pos];
    assert(is_digit(c));
    assert(skip_spaces(s, pos) == pos);
    assert(punctuation(c) is None);
    assert(!is_letter(c));
    assert(lexeme_at(s, pos) == Lexeme::Token(TokenView::Integer(i), end));
    lemma_token_lexes(s, pos, TokenView::Integer(i), end);
}

/// A string without a double quote in it, written between double quotes,
/// is read as the string.
pub proof fn lemma_string_lexes(s: Seq<char>, pos: int, contents: Seq<char>)
    requires
        forall|i: int| 0 <= i < contents.len() ==> #[trigger] contents[i] != '"',
        holds(s, pos, "\""@ + (contents + "\""@)),
    ensures
        "\""@.len() == 1,
        lexes(s, pos, (contents.len() + 2) as int, seq![TokenView::String(contents)]),
{
    reveal_strlit("\"");
    let quote = "\""@;
    lemma_holds_split(s, pos, quote, contents + quote);
    lemma_holds_split(s, pos + 1, contents, quote);
    lemma_holds_index(s, pos, quote, 0);
    let close = pos + 1 + contents.len();
    lemma_holds_index(s, close, quote, 0);
    lemma_holds_subrange(s, pos + 1, contents);
    assert forall|k: int| pos + 1 <= k < close implies #[trigger] s[k] != '"' by {
        lemma_holds_index(s, pos + 1, contents, k - pos - 1);
    }
    lemma_quote_run(s, pos + 1, close);
    assert(skip_spaces(s, pos) == pos);
    assert(lexeme_at(s, pos) == Lexeme::Token(TokenView::String(contents), close + 1));
    lemma_token_lexes(s, pos, TokenView::String(contents), close + 1);
}

/// A text that begins with a one-character spelling holds that character
/// at the position and the rest after it.
pub proof fn lemma_holds_char(s: Seq<char>, pos: int, spelling: Seq<char>, rest: Seq<char>, c: char)
    requires
        holds(s, pos, spelling + rest),
        spelling.len() == 1,
        spelling[0] == c,
    ensures
        0 <= pos < s.len(),
        s[pos] == c,
        holds(s, pos + 1, rest),
{
    lemma_holds_split(s, pos, spelling, rest);
    lemma_holds_index(s, pos, spelling, 0);
}

/// The seven keywords are spelled as words, and each is read as its own
/// token.
pub proof fn lemma_keywords()
    ensures
        is_word("if"@) && word_token("if"@) == TokenView::If && "if"@.len() == 2,
        is_word("else"@) && word_token("else"@) == TokenView::Else && "else"@.len() == 4,
        is_word("fn"@) && word_token("fn"@) == TokenView::Func && "fn"@.len() == 2,
        is_word("let"@) && word_token("let"@) == TokenView::Let && "let"@.len() == 3,
        is_word("true"@) && word_token("true"@) == TokenView::True && "true"@.len() == 4,
        is_word("false"@) && word_token("false"@) == TokenView::False && "false"@.len() == 5,
        is_word("return"@) && word_token("return"@) == TokenView::Ret && "return"@.len() == 6,
{
    reveal_strlit("if");
    reveal_strlit("else");
    reveal_strlit("fn");
    reveal_strlit("let");
    reveal_strlit("true");
    reveal_strlit("false");
    reveal_strlit("return");
    assert("fn"@[0] != "if"@[0]);
    assert("true"@[0] != "else"@[0]);
}

/// The spellings of the punctuation marks and of the space.
pub proof fn lemma_marks()
    ensures
        "("@.len() == 1 && "("@[0] == '(',
        ")"@.len() == 1 && ")"@[0] == ')',
        "["@.len() == 1 && "["@[0] == '[',
        "]"@.len() == 1 && "]"@[0] == ']',
        "{"@.len() == 1 && "{"@[0] == '{',
        "}"@.len() == 1 && "}"@[0] == '}',
        ","@.len() == 1 && ","@[0] == ',',
        ":"@.len() == 1 && ":"@[0] == ':',
        ";"@.len() == 1 && ";"@[0] == ';',
        "="@.len() == 1 && "="@[0] == '=',
        " "@.len() == 1 && " "@[0] == ' ',
{
    reveal_strlit("(");
    reveal_strlit(")");
    reveal_strlit("[");
    reveal_strlit("]");
    reveal_strlit("{");
    reveal_strlit("}");
    reveal_strlit(",");
    reveal_strlit(":");
    reveal_strlit(";");
    reveal_strlit("=");
    reveal_strlit(" ");
}

/// The end of a text is read as no token.
pub proof fn lemma_end_lexes(s: Seq<char>)
    ensures
        tokens_from(s, s.len() as int) == Ok::<Seq<TokenView>, LexError>(Seq::empty()),
{
    assert(skip_spaces(s, s.len() as int) == s.len());
    assert(lexeme_at(s, s.len() as int) == Lexeme::End);
}

/// What is read up to the end of a text is its token sequence.
pub proof fn lemma_lexes_whole(s: Seq<char>, tokens: Seq<TokenView>)
    requires
        lexes(s, 0, s.len() as int, tokens),
    ensures
        crate::lexer::tokenize(s) == Ok::<Seq<TokenView>, LexError>(tokens),
{
    lemma_end_lexes(s);
    assert(tokens + Seq::<TokenView>::empty() =~= tokens);
}

/// A punctuation mark and then a rest are read as the token of the mark
/// and then the tokens of the rest.
pub proof fn lemma_mark_then(
    s: Seq<char>,
    pos: int,
    spelling: Seq<char>,
    rest: Seq<char>,
    c: char,
    token: TokenView,
    rest_tokens: Seq<TokenView>,
)
    requires
        holds(s, pos, spelling + rest),
        spelling.len() == 1,
        spelling[0] == c,
        punctuation(c) == Some(token),
        lexes(s, pos + 1, rest.len() as int, rest_tokens),
    ensures
        lexes(s, pos, (spelling + rest).len() as int, seq![token] + rest_tokens),
{
    lemma_holds_char(s, pos, spelling, rest, c);
    lemma_punctuation_lexes(s, pos, c, token);
    lemma_lexes_join(s, pos, 1, seq![token], rest.len() as int, rest_tokens);
}

/// A punctuation mark at the end of a stretch is read as its token.
pub proof fn lemma_mark_last(s: Seq<char>, pos: int, spelling: Seq<char>, c: char, token: TokenView)
    requires
        holds(s, pos, spelling),
        spelling.len() == 1,
        spelling[0] == c,
        punctuation(c) == Some(token),
    ensures
        lexes(s, pos, 1, seq![token]),
{
    lemma_holds_index(s, pos, spelling, 0);
    lemma_punctuation_lexes(s, pos, c, token);
}

/// A space and then a rest are read as the tokens of the rest.
pub proof fn lemma_space_then(
    s: Seq<char>,
    pos: int,
    spelling: Seq<char>,
    rest: Seq<char>,
    rest_tokens: Seq<TokenView>,
)
    requires
        holds(s, pos, spelling + rest),
        spelling.len() == 1,
        spelling[0] == ' ',
        lexes(s, pos + 1, rest.len() as int, rest_tokens),
    ensures
        lexes(s, pos, (spelling + rest).len() as int, rest_tokens),
{
    lemma_holds_char(s, pos, spelling, rest, ' ');
    lemma_space_lexes(s, pos, rest.len() as int, rest_tokens);
}

/// An equals sign, then a space and more are read as the assignment token
/// and then the tokens of the rest.
pub proof fn lemma_assign_then(
    s: Seq<char>,
    pos: int,
    spelling: Seq<char>,
    rest: Seq<char>,
    rest_tokens: Seq<TokenView>,
)
    requires
        holds(s, pos, spelling + rest),
        spelling.len() == 1,
        spelling[0] == '=',
        rest.len() > 0,
        rest[0] == ' ',
        lexes(s, pos + 1, rest.len() as int, rest_tokens),
    ensures
        lexes(s, pos, (spelling + rest).len() as int, seq![TokenView::Assign] + rest_tokens),
{
    lemma_holds_char(s, pos, spelling, rest, '=');
    lemma_holds_index(s, pos + 1, rest, 0);
    lemma_assign_lexes(s, pos);
    lemma_lexes_join(s, pos, 1, seq![TokenView::Assign], rest.len() as int, rest_tokens);
}

/// A word, and then a rest that begins with no word character, are read as
/// the token of the word and then the tokens of the rest.
pub proof fn lemma_word_then(
    s: Seq<char>,
    pos: int,
    word: Seq<char>,
    rest: Seq<char>,
    rest_tokens: Seq<TokenView>,
)
    requires
        holds(s, pos, word + rest),
        is_word(word),
        rest.len() > 0,
        !is_word_char(rest[0]),
        lexes(s, pos + word.len(), rest.len() as int, rest_tokens),
    ensures
        lexes(s, pos, (word + rest).len() as int, seq![word_token(word)] + rest_tokens),
{
    lemma_holds_split(s, pos, word, rest);
    lemma_holds_index(s, pos + word.len(), rest, 0);
    lemma_word_lexes(s, pos, word);
    lemma_lexes_join(
        s,
        pos,
        word.len() as int,
        seq![word_token(word)],
        rest.len() as int,
        rest_tokens,
    );
}

/// A part and then a rest are read as the tokens of the part and then the
/// tokens of the rest.
pub proof fn lemma_part_then(
    s: Seq<char>,
    pos: int,
    part: Seq<char>,
    rest: Seq<char>,
    part_tokens: Seq<TokenView>,
    rest_tokens: Seq<TokenView>,
)
    requires
        lexes(s, pos, part.len() as int, part_tokens),
        lexes(s, pos + part.len(), rest.len() as int, rest_tokens),
    ensures
        lexes(s, pos, (part + rest).len() as int, part_tokens + rest_tokens),
{
    lemma_lexes_join(s, pos, part.len() as int, part_tokens, rest.len() as int, rest_tokens);
}

/// A stretch of no characters is read as no token.
pub proof fn lemma_nothing_lexes(s: Seq<char>, pos: int)
    requires
        0 <= pos <= s.len(),
    ensures
        lexes(s, pos, 0, Seq::empty()),
{
    match tokens_from(s, pos) {
        Ok(more) => {
            assert(Seq::<TokenView>::empty() + more =~= more);
        },
        Err(_) => {},
    }
}

/// An exclamation mark before anything but an equals sign is read as the
/// negation token.
pub proof fn lemma_bang_lexes(s: Seq<char>, pos: int)
    requires
        0 <= pos < s.len(),
        s[pos] == '!',
        pos + 1 >= s.len() || s[pos + 1] != '=',
    ensures
        lexes(s, pos, 1, seq![TokenView::Bang]),
{
    assert(skip_spaces(s, pos) == pos);
    assert(lexeme_at(s, pos) == Lexeme::Token(TokenView::Bang, pos + 1));
    lemma_token_lexes(s, pos, TokenView::Bang, pos + 1);
}

/// An equals sign or an exclamation mark directly before an equals sign
/// is read with it as one token: equality, or inequality.
pub proof fn lemma_comparison_lexes(s: Seq<char>, pos: int)
    requires
        0 <= pos,
        pos + 1 < s.len(),
        s[pos] == '=' || s[pos] == '!',
        s[pos + 1] == '=',
    ensures
        lexes(
            s,
            pos,
            2,
            seq![
                if s[pos] == '=' {
                    TokenView::Eq
                } else {
                    TokenView::NotEq
                },
            ],
        ),
{
    let token = if s[pos] == '=' {
        TokenView::Eq
    } else {
        TokenView::NotEq
    };
    assert(skip_spaces(s, pos) == pos);
    assert(lexeme_at(s, pos) == Lexeme::Token(token, pos + 2));
    lemma_token_lexes(s, pos, token, pos + 2);
}

/// The spelling of an infix operator that a token spells is read as that
/// token.
pub proof fn lemma_infix_lexes(s: Seq<char>, pos: int, op: Infix)
    requires
        op != Infix::LBracket,
        holds(s, pos, infix_text(op)),
    ensures
        lexes(s, pos, infix_text(op).len() as int, seq![infix_token(op)]),
{
    reveal_strlit("==");
    reveal_strlit("!=");
    reveal_strlit("<");
    reveal_strlit(">");
    reveal_strlit("+");
    reveal_strlit("-");
    reveal_strlit("*");
    reveal_strlit("/");
    let spelling = infix_text(op);
    lemma_holds_index(s, pos, spelling, 0);
    if op == Infix::Eq || op == Infix::NotEq {
        lemma_holds_index(s, pos, spelling, 1);
        lemma_comparison_lexes(s, pos);
    } else {
        lemma_punctuation_lexes(s, pos, spelling[0], infix_token(op));
    }
}

/// The spelling of a prefix operator before anything but an equals sign is
/// read as its token.
pub proof fn lemma_prefix_lexes(s: Seq<char>, pos: int, op: Prefix)
    requires
        holds(s, pos, prefix_text(op)),
        pos + 1 >= s.len() || s[pos + 1] != '=',
    ensures
        prefix_text(op).len() == 1,
        lexes(s, pos, 1, seq![prefix_token(op)]),
{
    reveal_strlit("-");
    reveal_strlit("!");
    lemma_holds_index(s, pos, prefix_text(op), 0);
    match op {
        Prefix::Minus => {
            lemma_punctuation_lexes(s, pos, '-', TokenView::Minus);
        },
        Prefix::Bang => {
            lemma_bang_lexes(s, pos);
        },
    }
}

} // verus!
