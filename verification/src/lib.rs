//! A lexer and expression parser for a small scripting language.
//!
//! The lexer turns source text into a sequence of tokens: reserved words,
//! single-character symbols, numeric and string literals, and identifiers.
//! The parser turns a token sequence into a strictly left-associative
//! binary-expression tree over numeric literals.

use vstd::prelude::*;

pub mod laws;
pub mod parser;

verus! {

/// A reserved word of the language, recognized from a fixed keyword table.
#[derive(Debug, Clone, Copy, PartialEq, Eq)]
pub enum ReservedWord {
    If,
    Else,
    While,
    For,
    In,
    Function,
    Return,
    Break,
    Continue,
    True,
    False,
    Null,
    Var,
    Let,
    Const,
    Print,
    Println,
    Input,
    Len,
    Type,
    Import,
    From,
    As,
    Class,
    New,
    This,
    Super,
}

/// A symbol token. The lexer recognizes single characters only: the
/// two-character spellings (`==`, `!=`, `<=`, `>=`, `&&`, `||`) are never
/// composed, so the compound variants are unreachable through scanning and
/// exist only as part of the closed symbol set.
#[derive(Debug, Clone, Copy, PartialEq, Eq)]
pub enum Symbol {
    Plus,
    Minus,
    Asterisk,
    Slash,
    Percent,
    Equal,
    NotEqual,
    LessThan,
    LessThanOrEqual,
    GreaterThan,
    GreaterThanOrEqual,
    Dot,
    Comma,
    Colon,
    Semicolon,
    LeftParen,
    RightParen,
    LeftBracket,
    RightBracket,
    LeftBrace,
    RightBrace,
    And,
    Or,
    Not,
    OriginalName,
}

/// A literal value carried by a token. A floating-point literal keeps its
/// exact source spelling (digits, a dot, digits), so that no inexact
/// representation enters the token stream.
#[derive(Debug, Clone, PartialEq)]
pub enum LiteralType {
    Int(i64),
    Float(String),
    Str(String),
}

/// The smallest lexical unit produced by scanning source text.
#[derive(Debug, Clone, PartialEq)]
pub enum Token {
    Reserved(ReservedWord),
    Symbol(Symbol),
    Literal(LiteralType),
    Identifier(String),
}

/// The mathematical value of a token: literal text as character sequences,
/// integer literals as unbounded integers.
pub enum TokenModel {
    Reserved(ReservedWord),
    Symbol(Symbol),
    IntLit(int),
    FloatLit(Seq<char>),
    StrLit(Seq<char>),
    Identifier(Seq<char>),
}

impl View for Token {
    type V = TokenModel;

    open spec fn view(&self) -> TokenModel {
        match self {
            Token::Reserved(w) => TokenModel::Reserved(*w),
            Token::Symbol(s) => TokenModel::Symbol(*s),
            Token::Literal(LiteralType::Int(n)) => TokenModel::IntLit(*n as int),
            Token::Literal(LiteralType::Float(t)) => TokenModel::FloatLit(t@),
            Token::Literal(LiteralType::Str(t)) => TokenModel::StrLit(t@),
            Token::Identifier(t) => TokenModel::Identifier(t@),
        }
    }
}

/// Why a scan failed. Every lexical error aborts the whole scan; there is no
/// recovery or partial-result mode.
#[derive(Debug, Clone, Copy, PartialEq, Eq)]
pub enum LexError {
    /// An integer literal's digit run does not fit in `i64`.
    NumericOverflow,
    /// An opening `"` with no closing `"` before the end of the text.
    UnterminatedString,
    /// A character outside every lexical class.
    UnexpectedCharacter,
}

impl LexError {
    /// A short diagnostic text for the error kind.
    pub fn message(&self) -> (r: &'static str)
        ensures
            r@ == match self {
                LexError::NumericOverflow => "integer literal out of range"@,
                LexError::UnterminatedString => "unterminated string literal"@,
                LexError::UnexpectedCharacter => "unexpected character"@,
            },
    {
        match self {
            LexError::NumericOverflow => "integer literal out of range",
            LexError::UnterminatedString => "unterminated string literal",
            LexError::UnexpectedCharacter => "unexpected character",
        }
    }
}

/// An ASCII decimal digit, `0` through `9`.
pub open spec fn is_digit_char(c: char) -> bool {
    48 <= c as u32 <= 57
}

/// The decimal value of a digit character.
pub open spec fn digit_value(c: char) -> int {
    c as u32 - 48
}

/// The characters with the Unicode `White_Space` property, written out as
/// the fixed set of code points that the property contains.
pub open spec fn is_whitespace_char(c: char) -> bool {
    let u = c as u32;
    ||| u == 0x9
    ||| u == 0xA
    ||| u == 0xB
    ||| u == 0xC
    ||| u == 0xD
    ||| u == 0x20
    ||| u == 0x85
    ||| u == 0xA0
    ||| u == 0x1680
    ||| (0x2000 <= u <= 0x200A)
    ||| u == 0x2028
    ||| u == 0x2029
    ||| u == 0x202F
    ||| u == 0x205F
    ||| u == 0x3000
}

/// The characters with the Unicode `Alphabetic` property. The full set is
/// far too large to write out; the trusted wrapper around
/// `char::is_alphabetic` pins the facts the proofs need.
pub uninterp spec fn is_alpha_char(c: char) -> bool;

/// An ASCII letter, `a`-`z` or `A`-`Z`.
pub open spec fn is_ascii_letter(c: char) -> bool {
    (65 <= c as u32 <= 90) || (97 <= c as u32 <= 122)
}

/// The symbol table: which single characters scan as symbol tokens, and as
/// which symbol. The double quote is absent: it opens a string literal.
pub open spec fn symbol_of(c: char) -> Option<Symbol> {
    match c {
        '+' => Some(Symbol::Plus),
        '-' => Some(Symbol::Minus),
        '*' => Some(Symbol::Asterisk),
        '/' => Some(Symbol::Slash),
        '%' => Some(Symbol::Percent),
        '=' => Some(Symbol::Equal),
        '!' => Some(Symbol::Not),
        '<' => Some(Symbol::LessThan),
        '>' => Some(Symbol::GreaterThan),
        '&' => Some(Symbol::And),
        '|' => Some(Symbol::Or),
        '(' => Some(Symbol::LeftParen),
        ')' => Some(Symbol::RightParen),
        '[' => Some(Symbol::LeftBracket),
        ']' => Some(Symbol::RightBracket),
        '{' => Some(Symbol::LeftBrace),
        '}' => Some(Symbol::RightBrace),
        ',' => Some(Symbol::Comma),
        ':' => Some(Symbol::Colon),
        ';' => Some(Symbol::Semicolon),
        '.' => Some(Symbol::Dot),
        _ => None,
    }
}

/// Whether `c` scans as a single-character symbol token.
pub open spec fn is_symbol_char(c: char) -> bool {
    symbol_of(c) is Some
}

/// The end of the run of digits that starts at `i`: the least index at or
/// after `i` that is out of range or holds a non-digit.
pub open spec fn digit_run_end(s: Seq<char>, i: int) -> int
    decreases s.len() - i,
{
    if i >= s.len() {
        i
    } else if is_digit_char(s[i]) {
        digit_run_end(s, i + 1)
    } else {
        i
    }
}

/// The end of the run of alphabetic characters that starts at `i`.
pub open spec fn alpha_run_end(s: Seq<char>, i: int) -> int
    decreases s.len() - i,
{
    if i >= s.len() {
        i
    } else if is_alpha_char(s[i]) {
        alpha_run_end(s, i + 1)
    } else {
        i
    }
}

/// The index of the first `"` at or after `i`, or the length of the text if
/// there is none.
pub open spec fn quote_end(s: Seq<char>, i: int) -> int
    decreases s.len() - i,
{
    if i >= s.len() {
        i
    } else if s[i] == '"' {
        i
    } else {
        quote_end(s, i + 1)
    }
}

/// The numeric value of a digit sequence read in base ten.
pub open spec fn digits_value(s: Seq<char>) -> int
    decreases s.len(),
{
    if s.len() == 0 {
        0
    } else {
        digits_value(s.drop_last()) * 10 + digit_value(s.last())
    }
}

/// Where scanning a numeric literal that starts at `i` ends: past the digit
/// run, and when a dot follows it, also past the dot and the digits after it.
pub open spec fn number_end(s: Seq<char>, i: int) -> int {
    let j = digit_run_end(s, i);
    if j < s.len() && s[j] == '.' {
        digit_run_end(s, j + 1)
    } else {
        j
    }
}

/// The token that scanning a numeric literal at `i` produces: a
/// floating-point literal carrying its exact spelling when a dot follows the
/// digit run, otherwise an integer literal, which overflows when its value
/// does not fit in `i64`.
pub open spec fn number_token(s: Seq<char>, i: int) -> Result<TokenModel, LexError> {
    let j = digit_run_end(s, i);
    if j < s.len() && s[j] == '.' {
        Ok(TokenModel::FloatLit(s.subrange(i, digit_run_end(s, j + 1))))
    } else {
        let v = digits_value(s.subrange(i, j));
        if v > i64::MAX {
            Err(LexError::NumericOverflow)
        } else {
            Ok(TokenModel::IntLit(v))
        }
    }
}

/// The fixed keyword table: which identifier spellings are reserved words.
pub open spec fn keyword_of(s: Seq<char>) -> Option<ReservedWord> {
    if s == "if"@ {
        Some(ReservedWord::If)
    } else if s == "else"@ {
        Some(ReservedWord::Else)
    } else if s == "while"@ {
        Some(ReservedWord::While)
    } else if s == "for"@ {
        Some(ReservedWord::For)
    } else if s == "in"@ {
        Some(ReservedWord::In)
    } else if s == "fn"@ {
        Some(ReservedWord::Function)
    } else if s == "ret"@ {
        Some(ReservedWord::Return)
    } else if s == "break"@ {
        Some(ReservedWord::Break)
    } else if s == "continue"@ {
        Some(ReservedWord::Continue)
    } else if s == "true"@ {
        Some(ReservedWord::True)
    } else if s == "false"@ {
        Some(ReservedWord::False)
    } else if s == "null"@ {
        Some(ReservedWord::Null)
    } else if s == "var"@ {
        Some(ReservedWord::Var)
    } else if s == "let"@ {
        Some(ReservedWord::Let)
    } else if s == "const"@ {
        Some(ReservedWord::Const)
    } else if s == "p"@ {
        Some(ReservedWord::Print)
    } else if s == "pl"@ {
        Some(ReservedWord::Println)
    } else if s == "input"@ {
        Some(ReservedWord::Input)
    } else if s == "len"@ {
        Some(ReservedWord::Len)
    } else if s == "type"@ {
        Some(ReservedWord::Type)
    } else if s == "import"@ {
        Some(ReservedWord::Import)
    } else if s == "from"@ {
        Some(ReservedWord::From)
    } else if s == "as"@ {
        Some(ReservedWord::As)
    } else if s == "class"@ {
        Some(ReservedWord::Class)
    } else if s == "new"@ {
        Some(ReservedWord::New)
    } else if s == "this"@ {
        Some(ReservedWord::This)
    } else if s == "super"@ {
        Some(ReservedWord::Super)
    } else {
        None
    }
}

/// The token an alphabetic run resolves to: the reserved word it spells, or
/// an identifier carrying the run itself.
pub open spec fn word_token(w: Seq<char>) -> TokenModel {
    match keyword_of(w) {
        Some(k) => TokenModel::Reserved(k),
        None => TokenModel::Identifier(w),
    }
}

/// Prepends one token to a scan result, keeping an error as it is.
pub open spec fn lex_cons(t: TokenModel, r: Result<Seq<TokenModel>, LexError>) -> Result<
    Seq<TokenModel>,
    LexError,
> {
    match r {
        Ok(ts) => Ok(seq![t] + ts),
        Err(e) => Err(e),
    }
}

/// Concatenates already-produced tokens with the rest of a scan result,
/// keeping an error as it is.
pub open spec fn lex_cat(pre: Seq<TokenModel>, r: Result<Seq<TokenModel>, LexError>) -> Result<
    Seq<TokenModel>,
    LexError,
> {
    match r {
        Ok(ts) => Ok(pre + ts),
        Err(e) => Err(e),
    }
}

/// The tokens that scanning the text from position `i` onward produces, or
/// the error the scan stops on. One left-to-right pass: white space is
/// skipped; a digit starts a numeric literal; a symbol character becomes a
/// single-character symbol token; a `"` opens a string literal that runs
/// verbatim to the next `"`; an alphabetic run resolves against the keyword
/// table; every other character is a lexical error.
pub open spec fn lex_from(s: Seq<char>, i: int) -> Result<Seq<TokenModel>, LexError>
    decreases s.len() - i,
        when 0 <= i
        via lex_from_decreases
{
    if i >= s.len() {
        Ok(Seq::empty())
    } else {
        let c = s[i];
        if is_whitespace_char(c) {
            lex_from(s, i + 1)
        } else if is_digit_char(c) {
            match number_token(s, i) {
                Ok(t) => lex_cons(t, lex_from(s, number_end(s, i))),
                Err(e) => Err(e),
            }
        } else {
            match symbol_of(c) {
                Some(sym) => lex_cons(TokenModel::Symbol(sym), lex_from(s, i + 1)),
                None => if c == '"' {
                    let j = quote_end(s, i + 1);
                    if j >= s.len() {
                        Err(LexError::UnterminatedString)
                    } else {
                        lex_cons(TokenModel::StrLit(s.subrange(i + 1, j)), lex_from(s, j + 1))
                    }
                } else if is_alpha_char(c) {
                    let j = alpha_run_end(s, i);
                    lex_cons(word_token(s.subrange(i, j)), lex_from(s, j))
                } else {
                    Err(LexError::UnexpectedCharacter)
                },
            }
        }
    }
}

#[via_fn]
proof fn lex_from_decreases(s: Seq<char>, i: int) {
    if 0 <= i < s.len() {
        lemma_digit_run_end(s, i);
        let j = digit_run_end(s, i);
        if j < s.len() && s[j] == '.' {
            lemma_digit_run_end(s, j + 1);
        }
        lemma_quote_end(s, i + 1);
        lemma_alpha_run_end(s, i);
    }
}

/// The digit run that starts at `i` ends in range, consists of digits, and
/// stops at the first non-digit.
pub proof fn lemma_digit_run_end(s: Seq<char>, i: int)
    requires
        0 <= i <= s.len(),
    ensures
        i <= digit_run_end(s, i) <= s.len(),
        forall|k: int| i <= k < digit_run_end(s, i) ==> is_digit_char(#[trigger] s[k]),
        digit_run_end(s, i) < s.len() ==> !is_digit_char(s[digit_run_end(s, i)]),
        i < s.len() && is_digit_char(s[i]) ==> digit_run_end(s, i) > i,
    decreases s.len() - i,
{
    if i < s.len() && is_digit_char(s[i]) {
        lemma_digit_run_end(s, i + 1);
    }
}

/// The alphabetic run that starts at `i` ends in range, consists of
/// alphabetic characters, and stops at the first non-alphabetic one.
pub proof fn lemma_alpha_run_end(s: Seq<char>, i: int)
    requires
        0 <= i <= s.len(),
    ensures
        i <= alpha_run_end(s, i) <= s.len(),
        forall|k: int| i <= k < alpha_run_end(s, i) ==> is_alpha_char(#[trigger] s[k]),
        alpha_run_end(s, i) < s.len() ==> !is_alpha_char(s[alpha_run_end(s, i)]),
        i < s.len() && is_alpha_char(s[i]) ==> alpha_run_end(s, i) > i,
    decreases s.len() - i,
{
    if i < s.len() && is_alpha_char(s[i]) {
        lemma_alpha_run_end(s, i + 1);
    }
}

/// The first quote at or after `i` lies in range or at the length, nothing
/// before it is a quote, and when it lies in range it is a quote.
pub proof fn lemma_quote_end(s: Seq<char>, i: int)
    requires
        0 <= i <= s.len(),
    ensures
        i <= quote_end(s, i) <= s.len(),
        forall|k: int| i <= k < quote_end(s, i) ==> #[trigger] s[k] != '"',
        quote_end(s, i) < s.len() ==> s[quote_end(s, i)] == '"',
    decreases s.len() - i,
{
    if i < s.len() && s[i] != '"' {
        lemma_quote_end(s, i + 1);
    }
}

/// A run of digits from `i` to `j` that either reaches the end of the text
/// or stops right before a non-digit is exactly the digit run at `i`.
pub proof fn lemma_digit_run_end_is(s: Seq<char>, i: int, j: int)
    requires
        0 <= i <= j <= s.len(),
        forall|k: int| i <= k < j ==> is_digit_char(#[trigger] s[k]),
        j == s.len() || !is_digit_char(s[j]),
    ensures
        digit_run_end(s, i) == j,
    decreases j - i,
{
    if i < j {
        lemma_digit_run_end_is(s, i + 1, j);
    }
}

/// The alphabetic counterpart of `lemma_digit_run_end_is`.
pub proof fn lemma_alpha_run_end_is(s: Seq<char>, i: int, j: int)
    requires
        0 <= i <= j <= s.len(),
        forall|k: int| i <= k < j ==> is_alpha_char(#[trigger] s[k]),
        j == s.len() || !is_alpha_char(s[j]),
    ensures
        alpha_run_end(s, i) == j,
    decreases j - i,
{
    if i < j {
        lemma_alpha_run_end_is(s, i + 1, j);
    }
}

/// A stretch without quotes from `i` to `j` that either reaches the end of
/// the text or stops right at a quote locates the first quote at `j`.
pub proof fn lemma_quote_end_is(s: Seq<char>, i: int, j: int)
    requires
        0 <= i <= j <= s.len(),
        forall|k: int| i <= k < j ==> #[trigger] s[k] != '"',
        j == s.len() || s[j] == '"',
    ensures
        quote_end(s, i) == j,
    decreases j - i,
{
    if i < j {
        lemma_quote_end_is(s, i + 1, j);
    }
}

/// Relies on `char::is_whitespace`: true exactly for the characters with the
/// Unicode `White_Space` property, a fixed set its documentation lists and
/// `is_whitespace_char` writes out.
#[verifier::external_body]
fn char_is_whitespace(c: char) -> (r: bool)
    ensures
        r == is_whitespace_char(c),
{
    c.is_whitespace()
}

/// Relies on `char::is_alphabetic`: true exactly for the characters with the
/// Unicode `Alphabetic` property. Within ASCII that property holds of the
/// letters `a`-`z` and `A`-`Z` and of nothing else, and no character is both
/// alphabetic and white space.
#[verifier::external_body]
fn char_is_alphabetic(c: char) -> (r: bool)
    ensures
        r == is_alpha_char(c),
        is_ascii_letter(c) ==> r,
        (c as u32) < 128 && !is_ascii_letter(c) ==> !r,
        is_whitespace_char(c) ==> !r,
{
    c.is_alphabetic()
}

/// Relies on `String::push`: appends one character to the end of the string.
#[verifier::external_body]
fn push_char(s: &mut String, c: char)
    ensures
        final(s)@ == old(s)@.push(c),
{
    s.push(c)
}

/// The value of a digit sequence is never negative.
pub proof fn lemma_digits_value_nonneg(s: Seq<char>)
    requires
        forall|k: int| 0 <= k < s.len() ==> is_digit_char(#[trigger] s[k]),
    ensures
        digits_value(s) >= 0,
    decreases s.len(),
{
    if s.len() > 0 {
        lemma_digits_value_nonneg(s.drop_last());
    }
}

/// Extending a digit sequence never shrinks its value: the value of a prefix
/// is at most the value of the whole run.
pub proof fn lemma_digits_value_prefix(s: Seq<char>, i: int)
    requires
        0 <= i <= s.len(),
        forall|k: int| 0 <= k < s.len() ==> is_digit_char(#[trigger] s[k]),
    ensures
        digits_value(s.subrange(0, i)) <= digits_value(s),
    decreases s.len() - i,
{
    if i < s.len() {
        lemma_digits_value_prefix(s, i + 1);
        let a = s.subrange(0, i);
        let b = s.subrange(0, i + 1);
        assert(b.drop_last() =~= a);
        lemma_digits_value_nonneg(a);
    } else {
        assert(s.subrange(0, i) =~= s);
    }
}

/// Reads a run of digit characters as an `i64`, reporting overflow exactly
/// when the run's value does not fit.
fn digits_to_i64(digits: &Vec<char>) -> (r: Result<i64, LexError>)
    requires
        forall|k: int| 0 <= k < digits@.len() ==> is_digit_char(#[trigger] digits@[k]),
    ensures
        match r {
            Ok(v) => digits_value(digits@) <= i64::MAX && v as int == digits_value(digits@),
            Err(e) => e == LexError::NumericOverflow && digits_value(digits@) > i64::MAX,
        },
{
    let ghost s = digits@;
    let mut acc: i64 = 0;
    let mut i: usize = 0;
    while i < digits.len()
        invariant
            0 <= i <= digits@.len(),
            digits@ == s,
            forall|k: int| 0 <= k < s.len() ==> is_digit_char(#[trigger] s[k]),
            0 <= acc,
            acc as int == digits_value(s.subrange(0, i as int)),
        decreases digits@.len() - i,
    {
        let d: i64 = (digits[i] as u32 - 48) as i64;
        assert(0 <= d <= 9);
        if acc > 922337203685477580i64 || (acc == 922337203685477580i64 && d > 7) {
            proof {
                assert(s.subrange(0, i as int + 1).drop_last() =~= s.subrange(0, i as int));
                assert(digits_value(s.subrange(0, i as int + 1)) > i64::MAX);
                lemma_digits_value_prefix(s, i as int + 1);
            }
            return Err(LexError::NumericOverflow);
        }
        proof {
            assert(s.subrange(0, i as int + 1).drop_last() =~= s.subrange(0, i as int));
        }
        acc = acc * 10 + d;
        i = i + 1;
    }
    proof {
        assert(s.subrange(0, i as int) =~= s);
    }
    Ok(acc)
}

/// Copies a character sequence into a freshly built string.
fn chars_to_string(chars: &Vec<char>) -> (s: String)
    ensures
        s@ == chars@,
{
    let mut s = String::new();
    let mut i: usize = 0;
    while i < chars.len()
        invariant
            0 <= i <= chars@.len(),
            s@ == chars@.subrange(0, i as int),
        decreases chars@.len() - i,
    {
        push_char(&mut s, chars[i]);
        i = i + 1;
    }
    proof {
        assert(chars@.subrange(0, i as int) =~= chars@);
    }
    s
}

/// Whether a scanned character run spells exactly the given text.
fn word_is(word: &Vec<char>, text: &str) -> (r: bool)
    ensures
        r == (word@ == text@),
{
    let n = text.unicode_len();
    if word.len() != n {
        proof {
            assert(word@.len() != text@.len());
        }
        return false;
    }
    let mut i: usize = 0;
    while i < n
        invariant
            0 <= i <= n,
            n == word@.len(),
            n == text@.len(),
            forall|k: int| 0 <= k < i ==> word@[k] == text@[k],
        decreases n - i,
    {
        if word[i] != text.get_char(i) {
            proof {
                assert(word@ != text@);
            }
            return false;
        }
        i = i + 1;
    }
    proof {
        assert(word@ =~= text@);
    }
    true
}

/// Resolves an alphabetic run against the fixed keyword table.
fn keyword_for(word: &Vec<char>) -> (r: Option<ReservedWord>)
    ensures
        r == keyword_of(word@),
{
    if word_is(word, "if") {
        Some(ReservedWord::If)
    } else if word_is(word, "else") {
        Some(ReservedWord::Else)
    } else if word_is(word, "while") {
        Some(ReservedWord::While)
    } else if word_is(word, "for") {
        Some(ReservedWord::For)
    } else if word_is(word, "in") {
        Some(ReservedWord::In)
    } else if word_is(word, "fn") {
        Some(ReservedWord::Function)
    } else if word_is(word, "ret") {
        Some(ReservedWord::Return)
    } else if word_is(word, "break") {
        Some(ReservedWord::Break)
    } else if word_is(word, "continue") {
        Some(ReservedWord::Continue)
    } else if word_is(word, "true") {
        Some(ReservedWord::True)
    } else if word_is(word, "false") {
        Some(ReservedWord::False)
    } else if word_is(word, "null") {
        Some(ReservedWord::Null)
    } else if word_is(word, "var") {
        Some(ReservedWord::Var)
    } else if word_is(word, "let") {
        Some(ReservedWord::Let)
    } else if word_is(word, "const") {
        Some(ReservedWord::Const)
    } else if word_is(word, "p") {
        Some(ReservedWord::Print)
    } else if word_is(word, "pl") {
        Some(ReservedWord::Println)
    } else if word_is(word, "input") {
        Some(ReservedWord::Input)
    } else if word_is(word, "len") {
        Some(ReservedWord::Len)
    } else if word_is(word, "type") {
        Some(ReservedWord::Type)
    } else if word_is(word, "import") {
        Some(ReservedWord::Import)
    } else if word_is(word, "from") {
        Some(ReservedWord::From)
    } else if word_is(word, "as") {
        Some(ReservedWord::As)
    } else if word_is(word, "class") {
        Some(ReservedWord::Class)
    } else if word_is(word, "new") {
        Some(ReservedWord::New)
    } else if word_is(word, "this") {
        Some(ReservedWord::This)
    } else if word_is(word, "super") {
        Some(ReservedWord::Super)
    } else {
        None
    }
}

/// The view of a produced token vector: each token replaced by its model.
pub open spec fn token_models(v: Seq<Token>) -> Seq<TokenModel> {
    v.map(|k: int, t: Token| t@)
}

/// Mapping tokens to their models commutes with appending one token.
pub proof fn lemma_token_models_push(v: Seq<Token>, t: Token)
    ensures
        token_models(v.push(t)) == token_models(v).push(t@),
{
    assert(token_models(v.push(t)) =~= token_models(v).push(t@));
}

/// The scanning interface: building a scanner over a source text, stepping
/// the cursor, and producing tokens. The four spec functions expose the
/// scanner's abstract state: well-formedness, the source characters, the
/// cursor position, and the models of the tokens produced so far.
pub trait TokenizerTrait: Sized {
    spec fn wf(&self) -> bool;

    spec fn src(&self) -> Seq<char>;

    spec fn cursor(&self) -> int;

    spec fn toks(&self) -> Seq<TokenModel>;

    /// Builds a scanner positioned at the start of a non-empty text, with no
    /// tokens produced yet.
    fn new(code: &str) -> (t: Self)
        requires
            code@.len() > 0,
        ensures
            t.wf(),
            t.src() == code@,
            t.cursor() == 0,
            t.toks() == Seq::<TokenModel>::empty(),
    ;

    /// Advances the cursor by one position.
    fn next(&mut self)
        requires
            old(self).wf(),
            old(self).cursor() < old(self).src().len(),
        ensures
            final(self).wf(),
            final(self).src() == old(self).src(),
            final(self).toks() == old(self).toks(),
            final(self).cursor() == old(self).cursor() + 1,
    ;

    /// Scans one numeric literal at the cursor, which must stand on a digit:
    /// appends exactly the token `number_token` describes and leaves the
    /// cursor at `number_end`, or reports the overflow that `number_token`
    /// describes and appends nothing.
    fn create_number(&mut self) -> (r: Result<(), LexError>)
        requires
            old(self).wf(),
            0 <= old(self).cursor() < old(self).src().len(),
            is_digit_char(old(self).src()[old(self).cursor()]),
        ensures
            final(self).wf(),
            final(self).src() == old(self).src(),
            match r {
                Ok(()) => {
                    &&& number_token(old(self).src(), old(self).cursor()) is Ok
                    &&& final(self).toks() == old(self).toks().push(
                        number_token(old(self).src(), old(self).cursor())->Ok_0,
                    )
                    &&& final(self).cursor() == number_end(old(self).src(), old(self).cursor())
                },
                Err(e) => {
                    &&& number_token(old(self).src(), old(self).cursor()) == Err::<
                        TokenModel,
                        LexError,
                    >(e)
                    &&& final(self).toks() == old(self).toks()
                },
            },
    ;

    /// Scans the text from the cursor to its end: appends exactly the tokens
    /// that `lex_from` describes and leaves the cursor past the last
    /// character, or stops on the error that `lex_from` describes.
    fn create_token(&mut self) -> (r: Result<(), LexError>)
        requires
            old(self).wf(),
            0 <= old(self).cursor() <= old(self).src().len(),
        ensures
            final(self).wf(),
            final(self).src() == old(self).src(),
            match r {
                Ok(()) => {
                    &&& lex_from(old(self).src(), old(self).cursor()) is Ok
                    &&& final(self).toks() == old(self).toks() + lex_from(
                        old(self).src(),
                        old(self).cursor(),
                    )->Ok_0
                    &&& final(self).cursor() == old(self).src().len()
                },
                Err(e) => lex_from(old(self).src(), old(self).cursor()) == Err::<
                    Seq<TokenModel>,
                    LexError,
                >(e),
            },
    ;
}

/// A single-pass scanner: the source text as characters, a cursor with the
/// character under it (`'\0'` once past the end), and the tokens produced so
/// far.
pub struct Tokenizer {
    pub text: Vec<char>,
    pub current_index: usize,
    pub current_char: char,
    pub max_index: usize,
    pub token: Vec<Token>,
}

impl TokenizerTrait for Tokenizer {
    /// The cursor is a valid index or exactly one past the last one, and the
    /// held character mirrors the text at the cursor, with `'\0'` as the
    /// sentinel past the end.
    open spec fn wf(&self) -> bool {
        &&& self.text@.len() >= 1
        &&& self.max_index == self.text@.len() - 1
        &&& self.current_index <= self.text@.len()
        &&& self.current_char == (if self.current_index < self.text@.len() {
            self.text@[self.current_index as int]
        } else {
            '\0'
        })
    }

    open spec fn src(&self) -> Seq<char> {
        self.text@
    }

    open spec fn cursor(&self) -> int {
        self.current_index as int
    }

    open spec fn toks(&self) -> Seq<TokenModel> {
        token_models(self.token@)
    }

    fn new(code: &str) -> (t: Self) {
        let n = code.unicode_len();
        let mut text: Vec<char> = Vec::new();
        let mut i: usize = 0;
        while i < n
            invariant
                0 <= i <= n,
                n == code@.len(),
                text@ == code@.subrange(0, i as int),
            decreases n - i,
        {
            text.push(code.get_char(i));
            i = i + 1;
        }
        proof {
            assert(code@.subrange(0, i as int) =~= code@);
        }
        let current_index: usize = 0;
        let max_index = text.len() - 1;
        let token: Vec<Token> = Vec::new();
        let current_char = text[current_index];
        Self { text, current_index, current_char, max_index, token }
    }

    fn next(&mut self) {
        let n = self.text.len();
        assert(self.current_index < n);
        self.current_index = self.current_index + 1;
        if self.current_index > self.max_index {
            self.current_char = '\0';
        } else {
            self.current_char = self.text[self.current_index];
        }
    }

    fn create_number(&mut self) -> (r: Result<(), LexError>) {
        let ghost s = self.text@;
        let ghost c0 = self.current_index as int;
        let ghost t0 = self.toks();
        let mut digits: Vec<char> = Vec::new();
        while is_digit(self.current_char)
            invariant
                self.wf(),
                self.text@ == s,
                self.toks() == t0,
                0 <= c0 <= self.current_index as int <= s.len(),
                digits@ == s.subrange(c0, self.current_index as int),
                forall|k: int|
                    c0 <= k < self.current_index as int ==> is_digit_char(#[trigger] s[k]),
            decreases s.len() - self.current_index,
        {
            assert(self.current_index < self.text@.len());
            digits.push(self.current_char);
            self.next();
            proof {
                assert(s.subrange(c0, self.current_index as int) =~= s.subrange(
                    c0,
                    self.current_index as int - 1,
                ).push(s[self.current_index as int - 1]));
            }
        }
        let ghost j = self.current_index as int;
        proof {
            lemma_digit_run_end_is(s, c0, j);
        }
        if self.current_char == '.' {
            assert(self.current_index < self.text@.len());
            digits.push(self.current_char);
            self.next();
            proof {
                assert(digits@ =~= s.subrange(c0, j + 1));
            }
            while is_digit(self.current_char)
                invariant
                    self.wf(),
                    self.text@ == s,
                    self.toks() == t0,
                    0 <= c0 <= j,
                    j + 1 <= self.current_index as int <= s.len(),
                    digits@ == s.subrange(c0, self.current_index as int),
                    forall|k: int|
                        j + 1 <= k < self.current_index as int ==> is_digit_char(#[trigger] s[k]),
                decreases s.len() - self.current_index,
            {
                assert(self.current_index < self.text@.len());
                digits.push(self.current_char);
                self.next();
                proof {
                    assert(s.subrange(c0, self.current_index as int) =~= s.subrange(
                        c0,
                        self.current_index as int - 1,
                    ).push(s[self.current_index as int - 1]));
                }
            }
            proof {
                lemma_digit_run_end_is(s, j + 1, self.current_index as int);
            }
            let text = chars_to_string(&digits);
            let tok = Token::Literal(LiteralType::Float(text));
            proof {
                lemma_token_models_push(self.token@, tok);
            }
            self.token.push(tok);
            Ok(())
        } else {
            proof {
                assert forall|k: int| 0 <= k < digits@.len() implies is_digit_char(
                    #[trigger] digits@[k],
                ) by {
                    assert(digits@[k] == s[c0 + k]);
                }
            }
            match digits_to_i64(&digits) {
                Ok(v) => {
                    let tok = Token::Literal(LiteralType::Int(v));
                    proof {
                        lemma_token_models_push(self.token@, tok);
                    }
                    self.token.push(tok);
                    Ok(())
                },
                Err(e) => Err(e),
            }
        }
    }

    fn create_token(&mut self) -> (r: Result<(), LexError>) {
        let ghost s = self.text@;
        let ghost c0 = self.current_index as int;
        let ghost t0 = self.toks();
        let ghost n0 = t0.len() as int;
        while self.current_index < self.text.len()
            invariant
                self.wf(),
                self.text@ == s,
                s == old(self).src(),
                c0 == old(self).cursor(),
                t0 == old(self).toks(),
                c0 <= self.current_index as int <= s.len(),
                0 <= c0,
                n0 == t0.len(),
                self.toks().len() >= n0,
                self.toks().subrange(0, n0) == t0,
                lex_from(s, c0) == lex_cat(
                    self.toks().skip(n0),
                    lex_from(s, self.current_index as int),
                ),
            decreases s.len() - self.current_index,
        {
            let ghost cur = self.current_index as int;
            let ghost delta = self.toks().skip(n0);
            let c = self.current_char;
            if char_is_whitespace(c) {
                self.next();
            } else if is_digit(c) {
                proof {
                    lemma_digit_run_end(s, cur);
                    let jj = digit_run_end(s, cur);
                    if jj < s.len() && s[jj] == '.' {
                        lemma_digit_run_end(s, jj + 1);
                    }
                }
                match self.create_number() {
                    Ok(()) => {
                        proof {
                            let t = number_token(s, cur)->Ok_0;
                            lemma_cat_cons(delta, t, lex_from(s, number_end(s, cur)));
                            assert(self.toks().skip(n0) =~= delta.push(t));
                            assert(self.toks().subrange(0, n0) =~= t0);
                        }
                    },
                    Err(e) => {
                        return Err(e);
                    },
                }
            } else {
                match symbol_for(c) {
                    Some(sym) => {
                        let tok = Token::Symbol(sym);
                        proof {
                            lemma_token_models_push(self.token@, tok);
                            lemma_cat_cons(delta, tok@, lex_from(s, cur + 1));
                            assert(self.toks().push(tok@).subrange(0, n0) =~= self.toks().subrange(
                                0,
                                n0,
                            ));
                            assert(self.toks().push(tok@).skip(n0) =~= delta.push(tok@));
                        }
                        self.token.push(tok);
                        self.next();
                    },
                    None => {
                        if c == '"' {
                            self.next();
                            let mut chars: Vec<char> = Vec::new();
                            while self.current_index < self.text.len() && self.current_char != '"'
                                invariant
                                    self.wf(),
                                    self.text@ == s,
                                    n0 == t0.len(),
                                    self.toks().len() >= n0,
                                    self.toks().subrange(0, n0) == t0,
                                    self.toks().skip(n0) == delta,
                                    cur + 1 <= self.current_index as int <= s.len(),
                                    0 <= cur,
                                    chars@ == s.subrange(cur + 1, self.current_index as int),
                                    forall|k: int|
                                        cur + 1 <= k < self.current_index as int ==> #[trigger] s[k]
                                            != '"',
                                decreases s.len() - self.current_index,
                            {
                                chars.push(self.current_char);
                                self.next();
                                proof {
                                    assert(s.subrange(cur + 1, self.current_index as int)
                                        =~= s.subrange(
                                        cur + 1,
                                        self.current_index as int - 1,
                                    ).push(s[self.current_index as int - 1]));
                                }
                            }
                            let ghost qe = self.current_index as int;
                            proof {
                                lemma_quote_end_is(s, cur + 1, qe);
                            }
                            if self.current_index >= self.text.len() {
                                return Err(LexError::UnterminatedString);
                            }
                            let text = chars_to_string(&chars);
                            let tok = Token::Literal(LiteralType::Str(text));
                            proof {
                                lemma_token_models_push(self.token@, tok);
                                lemma_cat_cons(delta, tok@, lex_from(s, qe + 1));
                                assert(self.toks().push(tok@).subrange(0, n0)
                                    =~= self.toks().subrange(0, n0));
                                assert(self.toks().push(tok@).skip(n0) =~= delta.push(tok@));
                            }
                            self.token.push(tok);
                            self.next();
                        } else if char_is_alphabetic(c) {
                            let mut word: Vec<char> = Vec::new();
                            while char_is_alphabetic(self.current_char)
                                invariant
                                    self.wf(),
                                    self.text@ == s,
                                    n0 == t0.len(),
                                    self.toks().len() >= n0,
                                    self.toks().subrange(0, n0) == t0,
                                    self.toks().skip(n0) == delta,
                                    cur <= self.current_index as int <= s.len(),
                                    0 <= cur,
                                    word@ == s.subrange(cur, self.current_index as int),
                                    forall|k: int|
                                        cur <= k < self.current_index as int ==> is_alpha_char(
                                            #[trigger] s[k],
                                        ),
                                decreases s.len() - self.current_index,
                            {
                                assert(self.current_index < self.text@.len());
                                word.push(self.current_char);
                                self.next();
                                proof {
                                    assert(s.subrange(cur, self.current_index as int)
                                        =~= s.subrange(
                                        cur,
                                        self.current_index as int - 1,
                                    ).push(s[self.current_index as int - 1]));
                                }
                            }
                            proof {
                                lemma_alpha_run_end_is(s, cur, self.current_index as int);
                            }
                            let tok = match keyword_for(&word) {
                                Some(k) => Token::Reserved(k),
                                None => Token::Identifier(chars_to_string(&word)),
                            };
                            proof {
                                lemma_token_models_push(self.token@, tok);
                                lemma_cat_cons(delta, tok@, lex_from(s, alpha_run_end(s, cur)));
                                assert(self.toks().push(tok@).subrange(0, n0)
                                    =~= self.toks().subrange(0, n0));
                                assert(self.toks().push(tok@).skip(n0) =~= delta.push(tok@));
                            }
                            self.token.push(tok);
                        } else {
                            return Err(LexError::UnexpectedCharacter);
                        }
                    },
                }
            }
        }
        proof {
            let delta = self.toks().skip(n0);
            assert(lex_from(s, self.current_index as int) == Ok::<Seq<TokenModel>, LexError>(
                Seq::empty(),
            ));
            assert(delta + Seq::<TokenModel>::empty() =~= delta);
            assert(t0 + (delta + Seq::<TokenModel>::empty()) =~= self.toks());
        }
        Ok(())
    }
}

/// An ASCII decimal digit test.
fn is_digit(c: char) -> (r: bool)
    ensures
        r == is_digit_char(c),
{
    let u = c as u32;
    48 <= u && u <= 57
}

/// Prepending a token to the rest of a scan and then appending the tokens
/// already produced is the same as appending the token first.
pub proof fn lemma_cat_cons(pre: Seq<TokenModel>, t: TokenModel, r: Result<Seq<TokenModel>, LexError>)
    ensures
        lex_cat(pre, lex_cons(t, r)) == lex_cat(pre.push(t), r),
{
    match r {
        Ok(ts) => {
            assert(pre + (seq![t] + ts) =~= pre.push(t) + ts);
        },
        Err(_) => {},
    }
}

/// Maps a character to its symbol token, if it has one.
fn symbol_for(c: char) -> (r: Option<Symbol>)
    ensures
        r == symbol_of(c),
{
    match c {
        '+' => Some(Symbol::Plus),
        '-' => Some(Symbol::Minus),
        '*' => Some(Symbol::Asterisk),
        '/' => Some(Symbol::Slash),
        '%' => Some(Symbol::Percent),
        '=' => Some(Symbol::Equal),
        '!' => Some(Symbol::Not),
        '<' => Some(Symbol::LessThan),
        '>' => Some(Symbol::GreaterThan),
        '&' => Some(Symbol::And),
        '|' => Some(Symbol::Or),
        '(' => Some(Symbol::LeftParen),
        ')' => Some(Symbol::RightParen),
        '[' => Some(Symbol::LeftBracket),
        ']' => Some(Symbol::RightBracket),
        '{' => Some(Symbol::LeftBrace),
        '}' => Some(Symbol::RightBrace),
        ',' => Some(Symbol::Comma),
        ':' => Some(Symbol::Colon),
        ';' => Some(Symbol::Semicolon),
        '.' => Some(Symbol::Dot),
        _ => None,
    }
}

} // verus!
