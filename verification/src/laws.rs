//! The library's general laws, each stated over the scanning and parsing
//! specifications and proved once for all inputs.

use vstd::prelude::*;

use crate::LexError;
use crate::TokenModel;
use crate::digits_value;
use crate::is_alpha_char;
use crate::is_ascii_letter;
use crate::is_digit_char;
use crate::is_symbol_char;
use crate::is_whitespace_char;
use crate::lemma_alpha_run_end_is;
use crate::lemma_digit_run_end_is;
use crate::lex_from;
use crate::number_end;
use crate::number_token;
use crate::symbol_of;
use crate::word_token;
use crate::parser::ExprModel;
use crate::parser::ParseError;
use crate::parser::operand_of;
use crate::parser::parse_tokens;

verus! {

/// Scanning a non-empty text of decimal digits whose value fits in `i64`
/// yields exactly one integer-literal token carrying that value.
pub proof fn lemma_lex_integer_literal(s: Seq<char>)
    requires
        s.len() > 0,
        forall|k: int| 0 <= k < s.len() ==> is_digit_char(#[trigger] s[k]),
        digits_value(s) <= i64::MAX,
    ensures
        lex_from(s, 0) == Ok::<Seq<TokenModel>, LexError>(
            seq![TokenModel::IntLit(digits_value(s))],
        ),
{
    lemma_digit_run_end_is(s, 0, s.len() as int);
    assert(s.subrange(0, s.len() as int) =~= s);
    assert(number_token(s, 0) == Ok::<TokenModel, LexError>(TokenModel::IntLit(digits_value(s))));
    assert(lex_from(s, s.len() as int) == Ok::<Seq<TokenModel>, LexError>(Seq::empty()));
    assert(seq![TokenModel::IntLit(digits_value(s))] + Seq::<TokenModel>::empty()
        =~= seq![TokenModel::IntLit(digits_value(s))]);
}

/// Scanning a digit run, a dot, and a second digit run yields exactly one
/// floating-point literal token carrying that exact spelling.
pub proof fn lemma_lex_float_literal(s: Seq<char>, t: Seq<char>)
    requires
        s.len() > 0,
        forall|k: int| 0 <= k < s.len() ==> is_digit_char(#[trigger] s[k]),
        forall|k: int| 0 <= k < t.len() ==> is_digit_char(#[trigger] t[k]),
    ensures
        lex_from(s + seq!['.'] + t, 0) == Ok::<Seq<TokenModel>, LexError>(
            seq![TokenModel::FloatLit(s + seq!['.'] + t)],
        ),
{
    let u = s + seq!['.'] + t;
    assert(u.len() == s.len() + 1 + t.len());
    assert(forall|k: int| 0 <= k < s.len() ==> u[k] == s[k]);
    assert(u[s.len() as int] == '.');
    assert(forall|k: int| s.len() + 1 <= k < u.len() ==> u[k] == t[k - s.len() - 1]);
    lemma_digit_run_end_is(u, 0, s.len() as int);
    lemma_digit_run_end_is(u, s.len() as int + 1, u.len() as int);
    assert(u.subrange(0, u.len() as int) =~= u);
    assert(number_token(u, 0) == Ok::<TokenModel, LexError>(TokenModel::FloatLit(u)));
    assert(number_end(u, 0) == u.len());
    assert(lex_from(u, u.len() as int) == Ok::<Seq<TokenModel>, LexError>(Seq::empty()));
    assert(seq![TokenModel::FloatLit(u)] + Seq::<TokenModel>::empty()
        =~= seq![TokenModel::FloatLit(u)]);
}

/// Scanning one alphabetic run of ASCII letters yields exactly one token:
/// the reserved word the run spells when it stands in the keyword table, and
/// otherwise an identifier carrying the run itself. The run must also be
/// alphabetic in the scanner's sense, which holds of every ASCII letter.
pub proof fn lemma_lex_alphabetic_run(s: Seq<char>)
    ensures
        (s.len() > 0 && (forall|k: int|
            0 <= k < s.len() ==> is_ascii_letter(#[trigger] s[k]) && is_alpha_char(
                #[trigger] s[k],
            ))) ==> lex_from(s, 0) == Ok::<Seq<TokenModel>, LexError>(seq![word_token(s)]),
{
    if s.len() > 0 && (forall|k: int|
        0 <= k < s.len() ==> is_ascii_letter(#[trigger] s[k]) && is_alpha_char(#[trigger] s[k])) {
        lemma_alpha_run_end_is(s, 0, s.len() as int);
        assert(s.subrange(0, s.len() as int) =~= s);
        assert(lex_from(s, s.len() as int) == Ok::<Seq<TokenModel>, LexError>(Seq::empty()));
        assert(seq![word_token(s)] + Seq::<TokenModel>::empty() =~= seq![word_token(s)]);
    }
}

/// Scanning a text made of symbol characters yields one single-character
/// symbol token per character, in input order.
pub proof fn lemma_lex_symbol_run(s: Seq<char>)
    requires
        forall|k: int| 0 <= k < s.len() ==> is_symbol_char(#[trigger] s[k]),
    ensures
        lex_from(s, 0) == Ok::<Seq<TokenModel>, LexError>(
            s.map(|k: int, c: char| TokenModel::Symbol(symbol_of(c)->0)),
        ),
{
    lemma_lex_symbols_from(s, 0);
    assert(s.skip(0) =~= s);
}

/// The inductive step behind `lemma_lex_symbol_run`: from any position in a
/// text of symbol characters, the rest scans to its mapped symbol tokens.
proof fn lemma_lex_symbols_from(s: Seq<char>, i: int)
    requires
        0 <= i <= s.len(),
        forall|k: int| 0 <= k < s.len() ==> is_symbol_char(#[trigger] s[k]),
    ensures
        lex_from(s, i) == Ok::<Seq<TokenModel>, LexError>(
            s.skip(i).map(|k: int, c: char| TokenModel::Symbol(symbol_of(c)->0)),
        ),
    decreases s.len() - i,
{
    let f = |k: int, c: char| TokenModel::Symbol(symbol_of(c)->0);
    if i >= s.len() {
        assert(s.skip(i).map(f) =~= Seq::<TokenModel>::empty());
    } else {
        lemma_lex_symbols_from(s, i + 1);
        assert(seq![TokenModel::Symbol(symbol_of(s[i])->0)] + s.skip(i + 1).map(f)
            =~= s.skip(i).map(f));
    }
}

/// Scanning a text of white space alone yields no tokens at all.
pub proof fn lemma_lex_whitespace(s: Seq<char>)
    requires
        forall|k: int| 0 <= k < s.len() ==> is_whitespace_char(#[trigger] s[k]),
    ensures
        lex_from(s, 0) == Ok::<Seq<TokenModel>, LexError>(Seq::empty()),
{
    lemma_lex_whitespace_from(s, 0);
}

/// The inductive step behind `lemma_lex_whitespace`.
proof fn lemma_lex_whitespace_from(s: Seq<char>, i: int)
    requires
        0 <= i <= s.len(),
        forall|k: int| 0 <= k < s.len() ==> is_whitespace_char(#[trigger] s[k]),
    ensures
        lex_from(s, i) == Ok::<Seq<TokenModel>, LexError>(Seq::empty()),
    decreases s.len() - i,
{
    if i < s.len() {
        lemma_lex_whitespace_from(s, i + 1);
    }
}

/// A token sequence that does not begin with a numeric literal parses to no
/// tree: the parse fails at once with the expected-number syntax error.
pub proof fn lemma_parse_first_not_numeric(toks: Seq<TokenModel>)
    requires
        toks.len() > 0,
        operand_of(toks[0]) is None,
    ensures
        parse_tokens(toks) == Err::<ExprModel, ParseError>(ParseError::ExpectedNumber),
{
}

} // verus!
