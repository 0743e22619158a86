//! The tokens of the text of an expression.
use crate::decimal::{Decimal, decimal_of_text};
use crate::error::ParserError;
use vstd::prelude::*;
use vstd::string::StrSliceExecFns;

verus! {

/// `std::num::ParseIntError`, the reason why a text of digits is no integer
/// of 64 bits. It is handed on as it is.
#[verifier::external_type_specification]
#[verifier::external_body]
pub struct ExParseIntError(std::num::ParseIntError);

/// Why a text is not a sequence of tokens.
#[derive(Debug, PartialEq)]
pub enum LexicalError {
    InvalidToken,
    Integer(std::num::ParseIntError),
    Float(rust_decimal::Error),
}

/// A token of the text of an expression.
#[derive(Debug, PartialEq)]
pub enum Token {
    LessThan,
    LessThanEqual,
    GreaterThan,
    GreaterThanEqual,
    Not,
    Equal,
    NotEqual,
    In,
    NotIn,
    OneOf,
    NoneOf,
    AllOf,
    IsNull,
    IsNotNull,
    IsEmpty,
    IsNotEmpty,
    And,
    Or,
    LeftParenthesis,
    RightParenthesis,
    LeftSquareBracket,
    RightSquareBracket,
    Comma,
    IntegerLiteral(i64),
    StringLiteral(String),
    FloatLiteral(Decimal),
    BooleanLiteral(bool),
    Identifier(String),
}

/// What stands at a place of the text.
pub enum Kind {
    /// Nothing that a token can start with.
    Invalid,
    /// An operator, a bracket, a comma or a keyword.
    Symbol(Token),
    /// Digits, with or without a minus sign before them.
    Integer,
    /// Digits, a point and maybe more digits.
    Float,
    /// A text between quotes.
    Text,
    /// A name.
    Word,
}

/// Whether the character separates tokens.
pub open spec fn is_space(c: char) -> bool {
    c == ' ' || c == '\t' || c == '\n' || c == '\r' || c == '\x0b' || c == '\x0c'
}

/// Whether the character is a digit.
pub open spec fn is_digit(c: char) -> bool {
    '0' <= c <= '9'
}

/// Whether a name can start with the character.
pub open spec fn starts_word(c: char) -> bool {
    ('a' <= c <= 'z') || ('A' <= c <= 'Z') || c == '_'
}

/// Whether a name can go on with the character.
pub open spec fn continues_word(c: char) -> bool {
    starts_word(c) || is_digit(c) || c == '-'
}

/// Whether the character opens and closes a text.
pub open spec fn is_quote(c: char) -> bool {
    c == '"' || c == '\''
}

fn space(c: char) -> (result: bool)
    ensures
        result == is_space(c),
{
    c == ' ' || c == '\t' || c == '\n' || c == '\r' || c == '\x0b' || c == '\x0c'
}

fn digit(c: char) -> (result: bool)
    ensures
        result == is_digit(c),
{
    '0' <= c && c <= '9'
}

fn word_start(c: char) -> (result: bool)
    ensures
        result == starts_word(c),
{
    ('a' <= c && c <= 'z') || ('A' <= c && c <= 'Z') || c == '_'
}

fn word_part(c: char) -> (result: bool)
    ensures
        result == continues_word(c),
{
    word_start(c) || digit(c) || c == '-'
}

fn quote(c: char) -> (result: bool)
    ensures
        result == is_quote(c),
{
    c == '"' || c == '\''
}

/// Where the spaces from `from` on end.
pub open spec fn spaces_end(input: Seq<char>, from: int) -> int
    decreases input.len() - from,
{
    if 0 <= from < input.len() && is_space(input[from]) {
        spaces_end(input, from + 1)
    } else {
        from
    }
}

/// Where the digits from `from` on end.
pub open spec fn digits_end(input: Seq<char>, from: int) -> int
    decreases input.len() - from,
{
    if 0 <= from < input.len() && is_digit(input[from]) {
        digits_end(input, from + 1)
    } else {
        from
    }
}

/// Where the name that goes on at `from` ends.
pub open spec fn word_end(input: Seq<char>, from: int) -> int
    decreases input.len() - from,
{
    if 0 <= from < input.len() && continues_word(input[from]) {
        word_end(input, from + 1)
    } else {
        from
    }
}

/// Where the quote stands that closes the text that goes on at `from`, if
/// there is one. A backslash takes the character behind it with it, which
/// may be a quote and may not be a line feed.
pub open spec fn closing(input: Seq<char>, from: int, quote: char) -> Option<int>
    decreases input.len() - from,
{
    if from < 0 || from >= input.len() {
        None
    } else if input[from] == '\\' {
        if from + 1 < input.len() && input[from + 1] != '\n' {
            closing(input, from + 2, quote)
        } else {
            None
        }
    } else if input[from] == quote {
        Some(from)
    } else {
        closing(input, from + 1, quote)
    }
}

/// Whether the phrase stands at `start` in the text.
pub open spec fn stands_at(input: Seq<char>, start: int, phrase: Seq<char>) -> bool {
    0 <= start && start + phrase.len() <= input.len() && input.subrange(
        start,
        start + phrase.len(),
    ) == phrase
}

/// The longest keyword that stands at `start`, with its length.
pub open spec fn keyword(input: Seq<char>, start: int) -> Option<(Token, int)> {
    if stands_at(input, start, "is not empty"@) {
        Some((Token::IsNotEmpty, 12))
    } else if stands_at(input, start, "is not null"@) {
        Some((Token::IsNotNull, 11))
    } else if stands_at(input, start, "is empty"@) {
        Some((Token::IsEmpty, 8))
    } else if stands_at(input, start, "is null"@) {
        Some((Token::IsNull, 7))
    } else if stands_at(input, start, "none of"@) {
        Some((Token::NoneOf, 7))
    } else if stands_at(input, start, "not in"@) {
        Some((Token::NotIn, 6))
    } else if stands_at(input, start, "one of"@) {
        Some((Token::OneOf, 6))
    } else if stands_at(input, start, "all of"@) {
        Some((Token::AllOf, 6))
    } else if stands_at(input, start, "false"@) {
        Some((Token::BooleanLiteral(false), 5))
    } else if stands_at(input, start, "true"@) {
        Some((Token::BooleanLiteral(true), 4))
    } else if stands_at(input, start, "not"@) {
        Some((Token::Not, 3))
    } else if stands_at(input, start, "and"@) {
        Some((Token::And, 3))
    } else if stands_at(input, start, "in"@) {
        Some((Token::In, 2))
    } else if stands_at(input, start, "or"@) {
        Some((Token::Or, 2))
    } else {
        None
    }
}

/// The character at a place of the text, or a space behind its end.
pub open spec fn at(input: Seq<char>, position: int) -> char {
    if 0 <= position < input.len() {
        input[position]
    } else {
        ' '
    }
}

/// What stands at `start`, where a token has to start, and where it ends:
/// the longest token that the text admits there. A keyword wins over a name
/// of the same length.
pub open spec fn scan(input: Seq<char>, start: int) -> (Kind, int) {
    let c = at(input, start);
    let next = at(input, start + 1);
    if c == '<' {
        if next == '=' {
            (Kind::Symbol(Token::LessThanEqual), start + 2)
        } else if next == '>' {
            (Kind::Symbol(Token::NotEqual), start + 2)
        } else {
            (Kind::Symbol(Token::LessThan), start + 1)
        }
    } else if c == '>' {
        if next == '=' {
            (Kind::Symbol(Token::GreaterThanEqual), start + 2)
        } else {
            (Kind::Symbol(Token::GreaterThan), start + 1)
        }
    } else if c == '=' {
        (Kind::Symbol(Token::Equal), start + 1)
    } else if c == '!' {
        (Kind::Symbol(Token::Not), start + 1)
    } else if c == '&' {
        if next == '&' {
            (Kind::Symbol(Token::And), start + 2)
        } else {
            (Kind::Invalid, start + 1)
        }
    } else if c == '|' {
        if next == '|' {
            (Kind::Symbol(Token::Or), start + 2)
        } else {
            (Kind::Invalid, start + 1)
        }
    } else if c == '(' {
        (Kind::Symbol(Token::LeftParenthesis), start + 1)
    } else if c == ')' {
        (Kind::Symbol(Token::RightParenthesis), start + 1)
    } else if c == '[' {
        (Kind::Symbol(Token::LeftSquareBracket), start + 1)
    } else if c == ']' {
        (Kind::Symbol(Token::RightSquareBracket), start + 1)
    } else if c == ',' {
        (Kind::Symbol(Token::Comma), start + 1)
    } else if c == '-' {
        if is_digit(next) {
            (Kind::Integer, digits_end(input, start + 1))
        } else {
            (Kind::Invalid, start + 1)
        }
    } else if is_digit(c) {
        let end = digits_end(input, start);
        if at(input, end) == '.' {
            (Kind::Float, digits_end(input, end + 1))
        } else {
            (Kind::Integer, end)
        }
    } else if is_quote(c) {
        match closing(input, start + 1, c) {
            Some(end) => (Kind::Text, end + 1),
            None => (Kind::Invalid, start + 1),
        }
    } else if starts_word(c) {
        let end = word_end(input, start);
        match keyword(input, start) {
            Some((token, length)) => if start + length >= end {
                (Kind::Symbol(token), start + length)
            } else {
                (Kind::Word, end)
            },
            None => (Kind::Word, end),
        }
    } else {
        (Kind::Invalid, start + 1)
    }
}

/// The characters of a text.
fn to_chars(input: &str) -> (chars: Vec<char>)
    ensures
        chars@ == input@,
{
    let length = input.unicode_len();
    let mut chars: Vec<char> = Vec::with_capacity(length);
    let mut i: usize = 0;
    while i < length
        invariant
            i <= length,
            length == input@.len(),
            chars.len() == i,
            forall|k: int| 0 <= k < i ==> chars[k] == input@[k],
        decreases length - i,
    {
        chars.push(input.get_char(i));
        i += 1;
    }
    assert(chars@ =~= input@);
    chars
}

fn skip_spaces(chars: &Vec<char>, from: usize) -> (end: usize)
    requires
        from <= chars.len(),
    ensures
        end == spaces_end(chars@, from as int),
        from <= end <= chars.len(),
{
    let mut end = from;
    while end < chars.len() && space(chars[end])
        invariant
            from <= end <= chars.len(),
            spaces_end(chars@, from as int) == spaces_end(chars@, end as int),
        decreases chars.len() - end,
    {
        end += 1;
    }
    end
}

fn skip_digits(chars: &Vec<char>, from: usize) -> (end: usize)
    requires
        from <= chars.len(),
    ensures
        end == digits_end(chars@, from as int),
        from <= end <= chars.len(),
        forall|k: int| from <= k < end ==> is_digit(#[trigger] chars[k]),
{
    let mut end = from;
    while end < chars.len() && digit(chars[end])
        invariant
            from <= end <= chars.len(),
            digits_end(chars@, from as int) == digits_end(chars@, end as int),
            forall|k: int| from <= k < end ==> is_digit(#[trigger] chars[k]),
        decreases chars.len() - end,
    {
        end += 1;
    }
    end
}

fn skip_word(chars: &Vec<char>, from: usize) -> (end: usize)
    requires
        from <= chars.len(),
    ensures
        end == word_end(chars@, from as int),
        from <= end <= chars.len(),
{
    let mut end = from;
    while end < chars.len() && word_part(chars[end])
        invariant
            from <= end <= chars.len(),
            word_end(chars@, from as int) == word_end(chars@, end as int),
        decreases chars.len() - end,
    {
        end += 1;
    }
    end
}

fn find_closing(chars: &Vec<char>, from: usize, quote: char) -> (end: Option<usize>)
    requires
        from <= chars.len(),
    ensures
        match end {
            Some(end) => closing(chars@, from as int, quote) == Some(end as int) && from <= end
                < chars.len(),
            None => closing(chars@, from as int, quote) is None,
        },
{
    let mut position = from;
    while position < chars.len()
        invariant
            from <= position <= chars.len(),
            closing(chars@, from as int, quote) == closing(chars@, position as int, quote),
        decreases chars.len() - position,
    {
        let c = chars[position];
        if c == '\\' {
            if position + 1 < chars.len() && chars[position + 1] != '\n' {
                position += 2;
            } else {
                return None;
            }
        } else if c == quote {
            return Some(position);
        } else {
            position += 1;
        }
    }
    None
}

/// Whether the phrase stands at `start`.
fn starts(chars: &Vec<char>, start: usize, phrase: &str) -> (result: bool)
    requires
        start <= chars.len(),
    ensures
        result == stands_at(chars@, start as int, phrase@),
{
    let length = phrase.unicode_len();
    if length > chars.len() - start {
        return false;
    }
    let mut i: usize = 0;
    while i < length
        invariant
            i <= length,
            length == phrase@.len(),
            start + length <= chars.len(),
            forall|k: int| 0 <= k < i ==> chars[start + k] == phrase@[k],
        decreases length - i,
    {
        if chars[start + i] != phrase.get_char(i) {
            assert(chars@.subrange(start as int, start + length)[i as int] != phrase@[i as int]);
            return false;
        }
        i += 1;
    }
    assert(chars@.subrange(start as int, start + length) =~= phrase@);
    true
}

/// A keyword is not empty and stands within the text.
pub proof fn lemma_keyword(input: Seq<char>, start: int)
    ensures
        keyword(input, start) matches Some((_, length)) ==> 0 < length && start + length
            <= input.len(),
{
    reveal_strlit("is not empty");
    reveal_strlit("is not null");
    reveal_strlit("is empty");
    reveal_strlit("is null");
    reveal_strlit("none of");
    reveal_strlit("not in");
    reveal_strlit("one of");
    reveal_strlit("all of");
    reveal_strlit("false");
    reveal_strlit("true");
    reveal_strlit("not");
    reveal_strlit("and");
    reveal_strlit("in");
    reveal_strlit("or");
}

fn find_keyword(chars: &Vec<char>, start: usize) -> (found: Option<(Token, usize)>)
    requires
        start <= chars.len(),
    ensures
        match found {
            Some((token, length)) => keyword(chars@, start as int) == Some((token, length as int)),
            None => keyword(chars@, start as int) is None,
        },
{
    if starts(chars, start, "is not empty") {
        Some((Token::IsNotEmpty, 12))
    } else if starts(chars, start, "is not null") {
        Some((Token::IsNotNull, 11))
    } else if starts(chars, start, "is empty") {
        Some((Token::IsEmpty, 8))
    } else if starts(chars, start, "is null") {
        Some((Token::IsNull, 7))
    } else if starts(chars, start, "none of") {
        Some((Token::NoneOf, 7))
    } else if starts(chars, start, "not in") {
        Some((Token::NotIn, 6))
    } else if starts(chars, start, "one of") {
        Some((Token::OneOf, 6))
    } else if starts(chars, start, "all of") {
        Some((Token::AllOf, 6))
    } else if starts(chars, start, "false") {
        Some((Token::BooleanLiteral(false), 5))
    } else if starts(chars, start, "true") {
        Some((Token::BooleanLiteral(true), 4))
    } else if starts(chars, start, "not") {
        Some((Token::Not, 3))
    } else if starts(chars, start, "and") {
        Some((Token::And, 3))
    } else if starts(chars, start, "in") {
        Some((Token::In, 2))
    } else if starts(chars, start, "or") {
        Some((Token::Or, 2))
    } else {
        None
    }
}

/// What stands at `start`, and where it ends.
fn scan_token(chars: &Vec<char>, start: usize) -> (found: (Kind, usize))
    requires
        start < chars.len(),
    ensures
        found == (scan(chars@, start as int).0, found.1),
        found.1 == scan(chars@, start as int).1,
        start < found.1 <= chars.len(),
{
    let c = chars[start];
    let next = if start + 1 < chars.len() {
        chars[start + 1]
    } else {
        ' '
    };
    if c == '<' {
        if next == '=' {
            (Kind::Symbol(Token::LessThanEqual), start + 2)
        } else if next == '>' {
            (Kind::Symbol(Token::NotEqual), start + 2)
        } else {
            (Kind::Symbol(Token::LessThan), start + 1)
        }
    } else if c == '>' {
        if next == '=' {
            (Kind::Symbol(Token::GreaterThanEqual), start + 2)
        } else {
            (Kind::Symbol(Token::GreaterThan), start + 1)
        }
    } else if c == '=' {
        (Kind::Symbol(Token::Equal), start + 1)
    } else if c == '!' {
        (Kind::Symbol(Token::Not), start + 1)
    } else if c == '&' {
        if next == '&' {
            (Kind::Symbol(Token::And), start + 2)
        } else {
            (Kind::Invalid, start + 1)
        }
    } else if c == '|' {
        if next == '|' {
            (Kind::Symbol(Token::Or), start + 2)
        } else {
            (Kind::Invalid, start + 1)
        }
    } else if c == '(' {
        (Kind::Symbol(Token::LeftParenthesis), start + 1)
    } else if c == ')' {
        (Kind::Symbol(Token::RightParenthesis), start + 1)
    } else if c == '[' {
        (Kind::Symbol(Token::LeftSquareBracket), start + 1)
    } else if c == ']' {
        (Kind::Symbol(Token::RightSquareBracket), start + 1)
    } else if c == ',' {
        (Kind::Symbol(Token::Comma), start + 1)
    } else if c == '-' {
        if digit(next) {
            (Kind::Integer, skip_digits(chars, start + 1))
        } else {
            (Kind::Invalid, start + 1)
        }
    } else if digit(c) {
        let end = skip_digits(chars, start + 1);
        assert(digits_end(chars@, start as int) == digits_end(chars@, start + 1));
        if end < chars.len() && chars[end] == '.' {
            (Kind::Float, skip_digits(chars, end + 1))
        } else {
            (Kind::Integer, end)
        }
    } else if quote(c) {
        match find_closing(chars, start + 1, c) {
            Some(end) => (Kind::Text, end + 1),
            None => (Kind::Invalid, start + 1),
        }
    } else if word_start(c) {
        let end = skip_word(chars, start + 1);
        assert(word_end(chars@, start as int) == word_end(chars@, start + 1));
        proof {
            lemma_keyword(chars@, start as int);
        }
        match find_keyword(chars, start) {
            Some((token, length)) => if start + length >= end {
                (Kind::Symbol(token), start + length)
            } else {
                (Kind::Word, end)
            },
            None => (Kind::Word, end),
        }
    } else {
        (Kind::Invalid, start + 1)
    }
}

/// The number that a sequence of digits stands for.
pub open spec fn digits_value(text: Seq<char>) -> int
    decreases text.len(),
{
    if text.len() == 0 {
        0
    } else {
        digits_value(text.drop_last()) * 10 + (text.last() as int - '0' as int)
    }
}

/// Whether a text is made of digits, with or without a minus sign before
/// them.
pub open spec fn is_integer_text(text: Seq<char>) -> bool {
    &&& text.len() >= 1
    &&& (text[0] == '-' ==> text.len() >= 2)
    &&& forall|i: int| 0 <= i < text.len() ==> is_digit(#[trigger] text[i]) || (i == 0 && text[0] == '-')
}

/// The integer that a text of digits stands for, if it is one of 64 bits.
pub open spec fn integer_of_text(text: Seq<char>) -> Option<i64> {
    let value = if text.len() > 0 && text[0] == '-' {
        -digits_value(text.subrange(1, text.len() as int))
    } else {
        digits_value(text)
    };
    if i64::MIN <= value <= i64::MAX {
        Some(value as i64)
    } else {
        None
    }
}

/// Reads an integer with `str::parse`, which takes digits with or without a
/// sign before them and fails on a number that does not fit.
#[verifier::external_body]
fn parse_integer(text: &str) -> (result: Result<i64, std::num::ParseIntError>)
    requires
        is_integer_text(text@),
    ensures
        result.is_ok() == integer_of_text(text@).is_some(),
        result matches Ok(value) ==> integer_of_text(text@) == Some(value),
{
    text.parse::<i64>()
}

/// Where the quotes from `from` on end, before `end` at the latest.
pub open spec fn quotes_end(input: Seq<char>, from: int, end: int) -> int
    decreases end - from,
{
    if 0 <= from < end <= input.len() && is_quote(input[from]) {
        quotes_end(input, from + 1, end)
    } else {
        from
    }
}

/// Where the quotes before `end` start, at `from` at the earliest.
pub open spec fn quotes_start(input: Seq<char>, from: int, end: int) -> int
    decreases end - from,
{
    if 0 <= from < end <= input.len() && is_quote(input[end - 1]) {
        quotes_start(input, from, end - 1)
    } else {
        end
    }
}

/// The text between `start` and `end` without the quotes at its start and at
/// its end, of either kind and however many.
pub open spec fn trimmed(input: Seq<char>, start: int, end: int) -> Seq<char> {
    let from = quotes_end(input, start, end);
    input.subrange(from, quotes_start(input, from, end))
}

/// Whether the token is the one that stands at `start`.
pub open spec fn reads(token: Token, input: Seq<char>, start: int) -> bool {
    let end = scan(input, start).1;
    let text = input.subrange(start, end);
    match scan(input, start).0 {
        Kind::Symbol(symbol) => token == symbol,
        Kind::Word => token matches Token::Identifier(name) && name@ == text,
        Kind::Text => token matches Token::StringLiteral(value) && value@ == trimmed(
            input,
            start,
            end,
        ),
        Kind::Integer => token matches Token::IntegerLiteral(value) && integer_of_text(text)
            == Some(value),
        Kind::Float => token matches Token::FloatLiteral(value) && value.read_from(text),
        Kind::Invalid => false,
    }
}

/// Whether no token stands at `start`, for the reason that the error gives:
/// nothing there starts a token, or a number there is none that can be
/// held.
pub open spec fn fails(error: LexicalError, input: Seq<char>, start: int) -> bool {
    let end = scan(input, start).1;
    let text = input.subrange(start, end);
    match scan(input, start).0 {
        Kind::Invalid => error is InvalidToken,
        Kind::Integer => integer_of_text(text) is None && error is Integer,
        Kind::Float => decimal_of_text(text) is None && error is Float,
        _ => false,
    }
}

/// Where the token at `index` has to start: behind the spaces that follow
/// the token before it.
pub open spec fn start_of(input: Seq<char>, tokens: Seq<(usize, Token, usize)>, index: int) -> int {
    spaces_end(
        input,
        if index == 0 {
            0
        } else {
            tokens[index - 1].2 as int
        },
    )
}

/// Whether the token at `index` is the one that stands at its place in the
/// text, with the places of its start and its end.
pub open spec fn placed(input: Seq<char>, tokens: Seq<(usize, Token, usize)>, index: int) -> bool {
    let start = start_of(input, tokens, index);
    &&& start < input.len()
    &&& tokens[index].0 == start
    &&& reads(tokens[index].1, input, start)
    &&& tokens[index].2 == scan(input, start).1
}

/// Whether the tokens are those of the start of the text, one after the
/// other.
pub open spec fn lexed(input: Seq<char>, tokens: Seq<(usize, Token, usize)>) -> bool {
    forall|index: int| 0 <= index < tokens.len() ==> #[trigger] placed(input, tokens, index)
}

/// Cuts a text into its tokens.
pub struct Lexer<'input> {
    input: &'input str,
    chars: Vec<char>,
    position: usize,
}

impl<'input> Lexer<'input> {
    /// The text that is cut.
    pub closed spec fn text(&self) -> Seq<char> {
        self.input@
    }

    /// The place behind the last token that was read.
    pub closed spec fn position(&self) -> int {
        self.position as int
    }

    /// Whether the lexer is within its text.
    pub closed spec fn wf(&self) -> bool {
        self.chars@ == self.input@ && self.position <= self.chars.len()
    }

    /// A lexer at the start of the text.
    pub fn new(input: &'input str) -> (lexer: Self)
        ensures
            lexer.wf(),
            lexer.text() == input@,
            lexer.position() == 0,
    {
        Self { input, chars: to_chars(input), position: 0 }
    }

    /// The next token with the places of its start and its end, if the text
    /// has one more.
    pub fn next(&mut self) -> (result: Option<Result<(usize, Token, usize), ParserError>>)
        requires
            old(self).wf(),
        ensures
            final(self).wf(),
            final(self).text() == old(self).text(),
            ({
                let input = old(self).text();
                let start = spaces_end(input, old(self).position());
                match result {
                    None => start == input.len() && final(self).position() == start,
                    Some(Ok((from, token, to))) => start < input.len() && from == start && reads(
                        token,
                        input,
                        start,
                    ) && to == scan(input, start).1 && final(self).position() == to,
                    Some(Err(ParserError::Lexical(error))) => start < input.len() && fails(
                        error,
                        input,
                        start,
                    ) && final(self).position() == scan(input, start).1,
                    Some(Err(_)) => false,
                }
            }),
    {
        let start = skip_spaces(&self.chars, self.position);
        self.position = start;
        if start >= self.chars.len() {
            return None;
        }
        let (kind, end) = scan_token(&self.chars, start);
        self.position = end;
        let token = match kind {
            Kind::Invalid => {
                return Some(Err(ParserError::Lexical(LexicalError::InvalidToken)));
            },
            Kind::Symbol(token) => token,
            Kind::Word => Token::Identifier(self.input.substring_char(start, end).to_owned()),
            Kind::Text => {
                let mut from = start;
                while from < end && quote(self.chars[from])
                    invariant
                        start <= from <= end <= self.chars.len(),
                        quotes_end(self.chars@, start as int, end as int) == quotes_end(
                            self.chars@,
                            from as int,
                            end as int,
                        ),
                    decreases end - from,
                {
                    from += 1;
                }
                let mut to = end;
                while from < to && quote(self.chars[to - 1])
                    invariant
                        from <= to <= end <= self.chars.len(),
                        quotes_start(self.chars@, from as int, end as int) == quotes_start(
                            self.chars@,
                            from as int,
                            to as int,
                        ),
                    decreases to - from,
                {
                    to -= 1;
                }
                Token::StringLiteral(self.input.substring_char(from, to).to_owned())
            },
            Kind::Integer => {
                let text = self.input.substring_char(start, end);
                proof {
                    lemma_integer_text(self.chars@, start as int);
                }
                match parse_integer(text) {
                    Ok(value) => Token::IntegerLiteral(value),
                    Err(error) => {
                        return Some(Err(ParserError::Lexical(LexicalError::Integer(error))));
                    },
                }
            },
            Kind::Float => {
                let text = self.input.substring_char(start, end);
                match Decimal::from_text(text) {
                    Ok(value) => Token::FloatLiteral(value),
                    Err(error) => {
                        return Some(Err(ParserError::Lexical(LexicalError::Float(error))));
                    },
                }
            },
        };
        Some(Ok((start, token, end)))
    }
}

proof fn lemma_digits(input: Seq<char>, from: int)
    requires
        0 <= from <= input.len(),
    ensures
        from <= digits_end(input, from) <= input.len(),
        forall|k: int| from <= k < digits_end(input, from) ==> is_digit(#[trigger] input[k]),
    decreases input.len() - from,
{
    if from < input.len() && is_digit(input[from]) {
        lemma_digits(input, from + 1);
    }
}

/// What is scanned as an integer is made of digits, with or without a minus
/// sign before them.
proof fn lemma_integer_text(input: Seq<char>, start: int)
    requires
        0 <= start < input.len(),
        scan(input, start).0 is Integer,
    ensures
        is_integer_text(input.subrange(start, scan(input, start).1)),
{
    lemma_keyword(input, start);
    lemma_digits(input, start);
    lemma_digits(input, start + 1);
    if input[start] == '-' {
        assert(is_digit(input[start + 1]));
        lemma_digits(input, start + 2);
        assert(digits_end(input, start + 1) == digits_end(input, start + 2));
    } else {
        assert(is_digit(input[start]));
        assert(digits_end(input, start) == digits_end(input, start + 1));
    }
    let end = scan(input, start).1;
    let text = input.subrange(start, end);
    assert forall|i: int| 0 <= i < text.len() implies is_digit(#[trigger] text[i]) || (i == 0
        && text[0] == '-') by {
        assert(text[i] == input[start + i]);
    }
}

/// The place behind the last of the tokens.
pub open spec fn end_of(tokens: Seq<(usize, Token, usize)>) -> int {
    if tokens.len() == 0 {
        0
    } else {
        tokens[tokens.len() - 1].2 as int
    }
}

/// The tokens of a text, each with the places of its start and its end. The
/// text is refused at the first place where no token stands.
pub fn tokenize(input: &str) -> (result: Result<Vec<(usize, Token, usize)>, ParserError>)
    ensures
        match result {
            Ok(tokens) => lexed(input@, tokens@) && spaces_end(input@, end_of(tokens@))
                == input@.len(),
            Err(ParserError::Lexical(error)) => exists|tokens: Seq<(usize, Token, usize)>|
                #![trigger lexed(input@, tokens)]
                lexed(input@, tokens) && spaces_end(input@, end_of(tokens)) < input@.len()
                    && fails(error, input@, spaces_end(input@, end_of(tokens))),
            Err(_) => false,
        },
{
    let mut lexer = Lexer::new(input);
    let mut tokens: Vec<(usize, Token, usize)> = Vec::new();
    loop
        invariant
            lexer.wf(),
            lexer.text() == input@,
            lexed(input@, tokens@),
            lexer.position() == end_of(tokens@),
        decreases input@.len() - spaces_end(input@, lexer.position()),
    {
        let ghost before = tokens@;
        proof {
            lemma_spaces(input@, lexer.position());
        }
        match lexer.next() {
            None => {
                return Ok(tokens);
            },
            Some(Ok(token)) => {
                proof {
                    lemma_scan(input@, token.0 as int);
                    lemma_spaces(input@, token.2 as int);
                }
                tokens.push(token);
                proof {
                    assert forall|index: int| 0 <= index < tokens@.len() implies #[trigger] placed(
                        input@,
                        tokens@,
                        index,
                    ) by {
                        if index < before.len() {
                            assert(placed(input@, before, index));
                        }
                    }
                }
            },
            Some(Err(error)) => {
                return Err(error);
            },
        }
    }
}

proof fn lemma_spaces(input: Seq<char>, from: int)
    requires
        0 <= from <= input.len(),
    ensures
        from <= spaces_end(input, from) <= input.len(),
    decreases input.len() - from,
{
    if from < input.len() && is_space(input[from]) {
        lemma_spaces(input, from + 1);
    }
}

proof fn lemma_words(input: Seq<char>, from: int)
    requires
        0 <= from <= input.len(),
    ensures
        from <= word_end(input, from) <= input.len(),
    decreases input.len() - from,
{
    if from < input.len() && continues_word(input[from]) {
        lemma_words(input, from + 1);
    }
}

proof fn lemma_closing(input: Seq<char>, from: int, quote: char)
    requires
        0 <= from <= input.len(),
    ensures
        closing(input, from, quote) matches Some(end) ==> from <= end < input.len(),
    decreases input.len() - from,
{
    if from < input.len() {
        if input[from] == '\\' {
            if from + 1 < input.len() && input[from + 1] != '\n' {
                lemma_closing(input, from + 2, quote);
            }
        } else if input[from] != quote {
            lemma_closing(input, from + 1, quote);
        }
    }
}

/// A token is not empty and ends within the text.
pub proof fn lemma_scan(input: Seq<char>, start: int)
    requires
        0 <= start < input.len(),
    ensures
        start < scan(input, start).1 <= input.len(),
{
    lemma_keyword(input, start);
    lemma_digits(input, start + 1);
    lemma_words(input, start + 1);
    lemma_closing(input, start + 1, input[start]);
    if start + 2 <= input.len() {
        lemma_digits(input, start + 2);
        let end = digits_end(input, start + 1);
        if end + 1 <= input.len() {
            lemma_digits(input, end + 1);
        }
    }
}

} // verus!
