//! Tokenizer for the source language.
//!
//! Tokens are matched by maximal munch: at every position the longest match
//! wins, and a keyword wins over an identifier of the same length.  Besides
//! the fixed symbols and keywords there are identifiers `[A-z]([A-z]|[0-9])*`,
//! decimal numbers `-?[0-9]+`, character literals `'c'` for printable ASCII
//! `c` (which lex to their code), whitespace and `//` line comments.

use vstd::prelude::*;
use crate::names::hash_free;

verus! {

#[derive(Debug, Clone, PartialEq)]
pub enum LexingError {
    InvalidInteger(String),
    NonAsciiCharacter,
}

#[derive(Debug, Clone, PartialEq)]
pub enum Token {
    OpeningCurlyBracket,
    ClosingCurlyBracket,
    OpeningRoundBracket,
    ClosingRoundBracket,
    Semicolon,
    Comma,
    IfStatement,
    WhileLoop,
    Function,
    Identifier(String),
    LogicAnd,
    LogicOr,
    Assignment,
    Equals,
    NotEquals,
    Greater,
    GreaterEquals,
    Less,
    LessEquals,
    Addition,
    Subtraction,
    Multiplication,
    Division,
    Modulo,
    Return,
    Number(i64),
}

/// Identifier tokens always carry a nonempty name without `#`; the
/// single-assignment renamer relies on that to keep its versioned names
/// unambiguous.
pub open spec fn wf_token(t: Token) -> bool {
    match t {
        Token::Identifier(w) => w@.len() >= 1 && hash_free(w@),
        _ => true,
    }
}

pub open spec fn wf_tokens(ts: Seq<Result<Token, LexingError>>) -> bool {
    forall|i: int|
        0 <= i < ts.len() ==> (#[trigger] ts[i] matches Ok(t) ==> wf_token(t))
}


/// Model of a token: names carried as character sequences.
pub enum TokenM {
    OpeningCurlyBracket,
    ClosingCurlyBracket,
    OpeningRoundBracket,
    ClosingRoundBracket,
    Semicolon,
    Comma,
    IfStatement,
    WhileLoop,
    Function,
    Identifier(Seq<char>),
    LogicAnd,
    LogicOr,
    Assignment,
    Equals,
    NotEquals,
    Greater,
    GreaterEquals,
    Less,
    LessEquals,
    Addition,
    Subtraction,
    Multiplication,
    Division,
    Modulo,
    Return,
    Number(i64),
}

pub enum LexErrM {
    InvalidInteger(Seq<char>),
    NonAsciiCharacter,
}

pub open spec fn token_m(t: Token) -> TokenM {
    match t {
        Token::OpeningCurlyBracket => TokenM::OpeningCurlyBracket,
        Token::ClosingCurlyBracket => TokenM::ClosingCurlyBracket,
        Token::OpeningRoundBracket => TokenM::OpeningRoundBracket,
        Token::ClosingRoundBracket => TokenM::ClosingRoundBracket,
        Token::Semicolon => TokenM::Semicolon,
        Token::Comma => TokenM::Comma,
        Token::IfStatement => TokenM::IfStatement,
        Token::WhileLoop => TokenM::WhileLoop,
        Token::Function => TokenM::Function,
        Token::Identifier(w) => TokenM::Identifier(w@),
        Token::LogicAnd => TokenM::LogicAnd,
        Token::LogicOr => TokenM::LogicOr,
        Token::Assignment => TokenM::Assignment,
        Token::Equals => TokenM::Equals,
        Token::NotEquals => TokenM::NotEquals,
        Token::Greater => TokenM::Greater,
        Token::GreaterEquals => TokenM::GreaterEquals,
        Token::Less => TokenM::Less,
        Token::LessEquals => TokenM::LessEquals,
        Token::Addition => TokenM::Addition,
        Token::Subtraction => TokenM::Subtraction,
        Token::Multiplication => TokenM::Multiplication,
        Token::Division => TokenM::Division,
        Token::Modulo => TokenM::Modulo,
        Token::Return => TokenM::Return,
        Token::Number(n) => TokenM::Number(n),
    }
}

pub open spec fn lex_res_m(r: Result<Token, LexingError>) -> Result<TokenM, LexErrM> {
    match r {
        Ok(t) => Ok(token_m(t)),
        Err(LexingError::InvalidInteger(m)) => Err(LexErrM::InvalidInteger(m@)),
        Err(LexingError::NonAsciiCharacter) => Err(LexErrM::NonAsciiCharacter),
    }
}

pub open spec fn lex_results_m(s: Seq<Result<Token, LexingError>>) -> Seq<
    Result<TokenM, LexErrM>,
> {
    s.map_values(|r: Result<Token, LexingError>| lex_res_m(r))
}

pub open spec fn spec_space(c: char) -> bool {
    c as u32 == 32 || c as u32 == 9 || c as u32 == 10 || c as u32 == 13 || c as u32 == 12
}

/// The first position at or after `i` that cannot continue an identifier.
pub open spec fn ident_end(s: Seq<char>, i: int) -> int
    decreases s.len() - i,
{
    if i < 0 || i >= s.len() || !spec_ident_cont(s[i]) {
        i
    } else {
        ident_end(s, i + 1)
    }
}

/// The first position at or after `i` that is not a digit.
pub open spec fn digits_end(s: Seq<char>, i: int) -> int
    decreases s.len() - i,
{
    if i < 0 || i >= s.len() || !spec_digit(s[i]) {
        i
    } else {
        digits_end(s, i + 1)
    }
}

pub proof fn lemma_ident_end_bounds(s: Seq<char>, i: int)
    requires
        0 <= i <= s.len(),
    ensures
        i <= ident_end(s, i) <= s.len(),
    decreases s.len() - i,
{
    if i < s.len() && spec_ident_cont(s[i]) {
        lemma_ident_end_bounds(s, i + 1);
    }
}

pub proof fn lemma_digits_end_bounds(s: Seq<char>, i: int)
    requires
        0 <= i <= s.len(),
    ensures
        i <= digits_end(s, i) <= s.len(),
    decreases s.len() - i,
{
    if i < s.len() && spec_digit(s[i]) {
        lemma_digits_end_bounds(s, i + 1);
    }
}

/// A maximal run characterises the end position.
pub proof fn lemma_ident_end_is(s: Seq<char>, i: int, j: int)
    requires
        0 <= i <= j <= s.len(),
        forall|k: int| i <= k < j ==> spec_ident_cont(#[trigger] s[k]),
        j == s.len() || !spec_ident_cont(s[j]),
    ensures
        ident_end(s, i) == j,
    decreases j - i,
{
    if i < j {
        lemma_ident_end_is(s, i + 1, j);
    }
}

pub proof fn lemma_digits_end_is(s: Seq<char>, i: int, j: int)
    requires
        0 <= i <= j <= s.len(),
        forall|k: int| i <= k < j ==> spec_digit(#[trigger] s[k]),
        j == s.len() || !spec_digit(s[j]),
    ensures
        digits_end(s, i) == j,
    decreases j - i,
{
    if i < j {
        lemma_digits_end_is(s, i + 1, j);
    }
}

/// The token an identifier run denotes: a keyword where the word matches
/// one, the identifier itself otherwise.
pub open spec fn word_token(w: Seq<char>) -> TokenM {
    if w == "if"@ {
        TokenM::IfStatement
    } else if w == "while"@ {
        TokenM::WhileLoop
    } else if w == "fun"@ {
        TokenM::Function
    } else if w == "return"@ {
        TokenM::Return
    } else {
        TokenM::Identifier(w)
    }
}

/// The token a digit run denotes: its value, negated when the run was
/// introduced by a minus sign, or the overflow report when the value does
/// not fit a 64-bit integer.
pub open spec fn number_token(digits: Seq<char>, negative: bool) -> Result<TokenM, LexErrM> {
    let v = crate::names::dec_val(digits);
    if negative {
        if v <= 0x8000_0000_0000_0000 {
            Ok(TokenM::Number((-(v as int)) as i64))
        } else {
            Err(LexErrM::InvalidInteger("overflow error"@))
        }
    } else {
        if v <= 0x7fff_ffff_ffff_ffff {
            Ok(TokenM::Number(v as i64))
        } else {
            Err(LexErrM::InvalidInteger("overflow error"@))
        }
    }
}

/// The tokenisation of the input from position `i` on: maximal munch, a
/// keyword before an identifier of the same spelling, a digit run binding
/// to a preceding minus sign, errors standing in for text no pattern
/// matches.
pub open spec fn spec_lex_from(s: Seq<char>, i: int) -> Seq<Result<TokenM, LexErrM>>
    decreases s.len() - i, 0nat,
        when 0 <= i
    via spec_lex_from_decreases
{
    if i >= s.len() {
        Seq::empty()
    } else {
        let c = s[i];
        let u = c as u32;
        if spec_space(c) {
            spec_lex_from(s, i + 1)
        } else if u == 47 && i + 1 < s.len() && s[i + 1] as u32 == 47 {
            spec_lex_comment(s, i + 2)
        } else if spec_ident_start(c) {
            let j = ident_end(s, i + 1);
            spec_lex_from(s, j).insert(0, Ok(word_token(s.subrange(i, j))))
        } else if spec_digit(c) {
            let j = digits_end(s, i + 1);
            spec_lex_from(s, j).insert(0, number_token(s.subrange(i, j), false))
        } else if u == 45 {
            if i + 1 < s.len() && spec_digit(s[i + 1]) {
                let j = digits_end(s, i + 2);
                spec_lex_from(s, j).insert(0, number_token(s.subrange(i + 1, j), true))
            } else {
                spec_lex_from(s, i + 1).insert(0, Ok(TokenM::Subtraction))
            }
        } else if u == 39 {
            if i + 2 < s.len() && 32 <= s[i + 1] as u32 <= 126 && s[i + 2] as u32 == 39 {
                spec_lex_from(s, i + 3).insert(
                    0,
                    Ok(TokenM::Number((s[i + 1] as u32) as i64)),
                )
            } else {
                spec_lex_from(s, i + 1).insert(0, Err(LexErrM::NonAsciiCharacter))
            }
        } else if u == 123 {
            spec_lex_from(s, i + 1).insert(0, Ok(TokenM::OpeningCurlyBracket))
        } else if u == 125 {
            spec_lex_from(s, i + 1).insert(0, Ok(TokenM::ClosingCurlyBracket))
        } else if u == 40 {
            spec_lex_from(s, i + 1).insert(0, Ok(TokenM::OpeningRoundBracket))
        } else if u == 41 {
            spec_lex_from(s, i + 1).insert(0, Ok(TokenM::ClosingRoundBracket))
        } else if u == 59 {
            spec_lex_from(s, i + 1).insert(0, Ok(TokenM::Semicolon))
        } else if u == 44 {
            spec_lex_from(s, i + 1).insert(0, Ok(TokenM::Comma))
        } else if u == 38 {
            if i + 1 < s.len() && s[i + 1] as u32 == 38 {
                spec_lex_from(s, i + 2).insert(0, Ok(TokenM::LogicAnd))
            } else {
                spec_lex_from(s, i + 1).insert(0, Err(LexErrM::NonAsciiCharacter))
            }
        } else if u == 124 {
            if i + 1 < s.len() && s[i + 1] as u32 == 124 {
                spec_lex_from(s, i + 2).insert(0, Ok(TokenM::LogicOr))
            } else {
                spec_lex_from(s, i + 1).insert(0, Err(LexErrM::NonAsciiCharacter))
            }
        } else if u == 61 {
            if i + 1 < s.len() && s[i + 1] as u32 == 61 {
                spec_lex_from(s, i + 2).insert(0, Ok(TokenM::Equals))
            } else {
                spec_lex_from(s, i + 1).insert(0, Ok(TokenM::Assignment))
            }
        } else if u == 33 {
            if i + 1 < s.len() && s[i + 1] as u32 == 61 {
                spec_lex_from(s, i + 2).insert(0, Ok(TokenM::NotEquals))
            } else {
                spec_lex_from(s, i + 1).insert(0, Err(LexErrM::NonAsciiCharacter))
            }
        } else if u == 62 {
            if i + 1 < s.len() && s[i + 1] as u32 == 61 {
                spec_lex_from(s, i + 2).insert(0, Ok(TokenM::GreaterEquals))
            } else {
                spec_lex_from(s, i + 1).insert(0, Ok(TokenM::Greater))
            }
        } else if u == 60 {
            if i + 1 < s.len() && s[i + 1] as u32 == 61 {
                spec_lex_from(s, i + 2).insert(0, Ok(TokenM::LessEquals))
            } else {
                spec_lex_from(s, i + 1).insert(0, Ok(TokenM::Less))
            }
        } else if u == 43 {
            spec_lex_from(s, i + 1).insert(0, Ok(TokenM::Addition))
        } else if u == 42 {
            spec_lex_from(s, i + 1).insert(0, Ok(TokenM::Multiplication))
        } else if u == 47 {
            spec_lex_from(s, i + 1).insert(0, Ok(TokenM::Division))
        } else if u == 37 {
            spec_lex_from(s, i + 1).insert(0, Ok(TokenM::Modulo))
        } else {
            spec_lex_from(s, i + 1).insert(0, Err(LexErrM::NonAsciiCharacter))
        }
    }
}

#[via_fn]
proof fn spec_lex_from_decreases(s: Seq<char>, i: int) {
    if 0 <= i && i < s.len() {
        lemma_ident_end_bounds(s, i + 1);
        lemma_digits_end_bounds(s, i + 1);
        if i + 2 <= s.len() {
            lemma_digits_end_bounds(s, i + 2);
        }
    }
}

/// Inside a line comment: everything up to the newline is skipped.
pub open spec fn spec_lex_comment(s: Seq<char>, i: int) -> Seq<Result<TokenM, LexErrM>>
    decreases s.len() - i, 1nat,
        when 0 <= i
{
    if i >= s.len() {
        Seq::empty()
    } else if s[i] as u32 == 10 {
        spec_lex_from(s, i + 1)
    } else {
        spec_lex_comment(s, i + 1)
    }
}

/// The tokenisation of the whole input.
pub open spec fn spec_lex(s: Seq<char>) -> Seq<Result<TokenM, LexErrM>> {
    spec_lex_from(s, 0)
}

/// A character that may start an identifier: the ASCII range `A ..= z`.
fn is_ident_start(c: char) -> (r: bool)
    ensures
        r == spec_ident_start(c),
{
    let u = c as u32;
    65 <= u && u <= 122
}

pub open spec fn spec_ident_start(c: char) -> bool {
    65 <= c as u32 <= 122
}

/// A character that may continue an identifier: `A ..= z` or a digit.
fn is_ident_cont(c: char) -> (r: bool)
    ensures
        r == spec_ident_cont(c),
{
    let u = c as u32;
    (65 <= u && u <= 122) || (48 <= u && u <= 57)
}

pub open spec fn spec_ident_cont(c: char) -> bool {
    spec_ident_start(c) || spec_digit(c)
}

fn is_digit(c: char) -> (r: bool)
    ensures
        r == spec_digit(c),
{
    let u = c as u32;
    48 <= u && u <= 57
}

pub open spec fn spec_digit(c: char) -> bool {
    48 <= c as u32 <= 57
}

fn is_space(c: char) -> (r: bool)
{
    let u = c as u32;
    u == 32 || u == 9 || u == 10 || u == 13 || u == 12
}

/// Reads the identifier run starting at `i` and returns the consumed word
/// together with the first position after it.
fn scan_identifier(code: &str, i: usize, n: usize) -> (r: (String, usize))
    requires
        n == code@.len(),
        i < n,
        spec_ident_start(code@[i as int]),
    ensures
        i < r.1 <= n,
        r.1 == ident_end(code@, i as int + 1),
        r.0@ == code@.subrange(i as int, r.1 as int),
        r.0@.len() >= 1,
        hash_free(r.0@),
{
    let mut j = i + 1;
    while j < n && is_ident_cont(code.get_char(j))
        invariant
            n == code@.len(),
            i < j <= n,
            spec_ident_start(code@[i as int]),
            forall|p: int| i < p < j ==> spec_ident_cont(#[trigger] code@[p]),
        decreases n - j,
    {
        j += 1;
    }
    proof {
        lemma_ident_end_is(code@, i as int + 1, j as int);
    }
    let word = code.substring_char(i, j).to_owned();
    proof {
        assert forall|p: int| 0 <= p < word@.len() implies #[trigger] word@[p] != '#' by {
            assert(word@[p] == code@[i + p]);
            if p > 0 {
                assert(spec_ident_cont(code@[i + p]));
            }
            assert(('#' as u32) == 35);
        }
    }
    (word, j)
}

/// Reads the digit run starting at `i` and returns the first position
/// after it.
fn scan_digits(code: &str, i: usize, n: usize) -> (j: usize)
    requires
        n == code@.len(),
        i < n,
        spec_digit(code@[i as int]),
    ensures
        i < j <= n,
        j == digits_end(code@, i as int + 1),
        forall|p: int| i <= p < j ==> spec_digit(#[trigger] code@[p]),
{
    let mut j = i + 1;
    while j < n && is_digit(code.get_char(j))
        invariant
            n == code@.len(),
            i < j <= n,
            spec_digit(code@[i as int]),
            forall|p: int| i < p < j ==> spec_digit(#[trigger] code@[p]),
        decreases n - j,
    {
        j += 1;
    }
    proof {
        lemma_digits_end_is(code@, i as int + 1, j as int);
    }
    j
}

/// Accumulates the decimal digits of `code` in `digits_from .. digits_to`
/// and produces the number token, or the overflow report when the value
/// does not fit.  The digits accumulate negatively so that the most
/// negative representable value still fits.
fn parse_number(code: &str, digits_from: usize, digits_to: usize, negative: bool) -> (r: Result<
    Token,
    LexingError,
>)
    requires
        digits_from <= digits_to <= code@.len(),
        forall|p: int| digits_from <= p < digits_to ==> spec_digit(#[trigger] code@[p]),
    ensures
        lex_res_m(r) == number_token(
            code@.subrange(digits_from as int, digits_to as int),
            negative,
        ),
{
    let mut acc: i64 = 0;
    let mut j = digits_from;
    let mut overflow = false;
    while j < digits_to
        invariant
            digits_from <= j <= digits_to <= code@.len(),
            forall|p: int| digits_from <= p < digits_to ==> spec_digit(#[trigger] code@[p]),
            acc <= 0,
            !overflow ==> {
                let v = crate::names::dec_val(
                    code@.subrange(digits_from as int, j as int),
                );
                v <= 0x8000_0000_0000_0000 && acc as int == -(v as int)
            },
            overflow ==> crate::names::dec_val(
                code@.subrange(digits_from as int, j as int),
            ) > 0x8000_0000_0000_0000,
        decreases digits_to - j,
    {
        let ghost prefix = code@.subrange(digits_from as int, j as int);
        let ghost v0 = crate::names::dec_val(prefix);
        let c = code.get_char(j);
        let d = (c as u32) % 48;
        let d64: i64 = if d <= 9 {
            d as i64
        } else {
            0
        };
        proof {
            assert(code@.subrange(digits_from as int, j + 1).drop_last() =~= prefix);
            assert(code@.subrange(digits_from as int, j + 1).last() == code@[j as int]);
            assert(spec_digit(code@[j as int]));
            assert(d as int == crate::names::dec_char_val(code@[j as int]));
            assert(crate::names::dec_val(code@.subrange(digits_from as int, j + 1)) == v0 * 10
                + crate::names::dec_char_val(code@[j as int]));
        }
        match acc.checked_mul(10) {
            Some(m) => {
                match m.checked_sub(d64) {
                    Some(sd) => {
                        acc = sd;
                    },
                    None => {
                        overflow = true;
                    },
                }
            },
            None => {
                overflow = true;
            },
        }
        j += 1;
    }
    proof {
        assert(code@.subrange(digits_from as int, digits_to as int) =~= code@.subrange(
            digits_from as int,
            j as int,
        ));
    }
    if overflow {
        return Err(LexingError::InvalidInteger(String::from_str("overflow error")));
    }
    if negative {
        Ok(Token::Number(acc))
    } else {
        if acc == i64::MIN {
            Err(LexingError::InvalidInteger(String::from_str("overflow error")))
        } else {
            Ok(Token::Number(-acc))
        }
    }
}

/// Peeling the head of the remaining tokenisation onto the output.
proof fn lemma_shift(
    out: Seq<Result<Token, LexingError>>,
    e: Result<Token, LexingError>,
    rest: Seq<Result<TokenM, LexErrM>>,
)
    ensures
        lex_results_m(out) + rest.insert(0, lex_res_m(e)) =~~= lex_results_m(out.push(e)) + rest,
{
    assert(lex_results_m(out.push(e)) =~~= lex_results_m(out).push(lex_res_m(e)));
    assert forall|k: int|
        0 <= k < (lex_results_m(out) + rest.insert(0, lex_res_m(e))).len() implies (
    lex_results_m(out) + rest.insert(0, lex_res_m(e)))[k] == (lex_results_m(out).push(
        lex_res_m(e),
    ) + rest)[k] by {
        if k < out.len() {
        } else if k == out.len() {
            assert(rest.insert(0, lex_res_m(e))[0] == lex_res_m(e));
        } else {
            assert(rest.insert(0, lex_res_m(e))[k - out.len()] == rest[k - out.len() - 1]);
        }
    }
}

/// Splits the source text into tokens; positions that no token pattern
/// matches yield an error entry instead, as do integer literals that do not
/// fit an `i64`.
pub fn lex(code: &str) -> (r: Vec<Result<Token, LexingError>>)
    ensures
        wf_tokens(r@),
        lex_results_m(r@) == spec_lex(code@),
{
    let n = code.unicode_len();
    let mut out: Vec<Result<Token, LexingError>> = Vec::new();
    let mut i: usize = 0;
    proof {
        assert(lex_results_m(out@) + spec_lex_from(code@, 0) =~~= spec_lex(code@));
    }
    while i < n
        invariant
            n == code@.len(),
            i <= n,
            wf_tokens(out@),
            spec_lex(code@) == lex_results_m(out@) + spec_lex_from(code@, i as int),
        decreases n - i,
    {
        let ghost o_pre = out@;
        let ghost i_old = i as int;
        let c = code.get_char(i);
        let u = c as u32;
        if u == 32 || u == 9 || u == 10 || u == 13 || u == 12 {
            i += 1;
            proof {
                assert(spec_lex_from(code@, i_old) == spec_lex_from(code@, i as int));
            }
        } else if u == 47 && i + 1 < n && code.get_char(i + 1) as u32 == 47 {
            // line comment: skip to the end of the line
            let mut j = i + 2;
            proof {
                assert(spec_lex_from(code@, i_old) == spec_lex_comment(code@, j as int));
            }
            while j < n && code.get_char(j) as u32 != 10
                invariant
                    n == code@.len(),
                    i + 2 <= j <= n,
                    spec_lex(code@) == lex_results_m(out@) + spec_lex_comment(
                        code@,
                        j as int,
                    ),
                decreases n - j,
            {
                proof {
                    assert(spec_lex_comment(code@, j as int) == spec_lex_comment(
                        code@,
                        j + 1,
                    ));
                }
                j += 1;
            }
            proof {
                if j < n {
                    assert(code@[j as int] as u32 == 10);
                    assert(spec_space(code@[j as int]));
                    assert(spec_lex_comment(code@, j as int) == spec_lex_from(code@, j + 1));
                    assert(spec_lex_from(code@, j as int) == spec_lex_from(code@, j + 1));
                } else {
                    assert(spec_lex_comment(code@, j as int) == spec_lex_from(code@, j as int));
                }
            }
            i = j;
        } else if is_ident_start(c) {
            let (word, j) = scan_identifier(code, i, n);
            let is_kw_if = word == String::from_str("if");
            let is_kw_while = word == String::from_str("while");
            let is_kw_fun = word == String::from_str("fun");
            let is_kw_return = word == String::from_str("return");
            let tok = if is_kw_if {
                Token::IfStatement
            } else if is_kw_while {
                Token::WhileLoop
            } else if is_kw_fun {
                Token::Function
            } else if is_kw_return {
                Token::Return
            } else {
                Token::Identifier(word)
            };
            out.push(Ok(tok));
            proof {
                assert(token_m(out@.last()->Ok_0) == word_token(
                    code@.subrange(i_old, j as int),
                ));
                assert(spec_lex_from(code@, i_old) == spec_lex_from(code@, j as int).insert(
                    0,
                    lex_res_m(out@.last()),
                ));
                lemma_shift(o_pre, out@.last(), spec_lex_from(code@, j as int));
            }
            i = j;
        } else if is_digit(c) {
            let j = scan_digits(code, i, n);
            out.push(parse_number(code, i, j, false));
            proof {
                assert(spec_lex_from(code@, i_old) == spec_lex_from(code@, j as int).insert(
                    0,
                    lex_res_m(out@.last()),
                ));
                lemma_shift(o_pre, out@.last(), spec_lex_from(code@, j as int));
            }
            i = j;
        } else if u == 45 {
            // '-' starts a number when a digit follows (maximal munch),
            // otherwise it is the subtraction operator
            if i + 1 < n && is_digit(code.get_char(i + 1)) {
                let j = scan_digits(code, i + 1, n);
                out.push(parse_number(code, i + 1, j, true));
                proof {
                    assert(spec_lex_from(code@, i_old) == spec_lex_from(
                        code@,
                        j as int,
                    ).insert(0, lex_res_m(out@.last())));
                    lemma_shift(o_pre, out@.last(), spec_lex_from(code@, j as int));
                }
                i = j;
            } else {
                out.push(Ok(Token::Subtraction));
                proof {
                    assert(spec_lex_from(code@, i_old) == spec_lex_from(code@, i_old
                        + 1).insert(0, lex_res_m(out@.last())));
                    lemma_shift(o_pre, out@.last(), spec_lex_from(code@, i_old + 1));
                }
                i += 1;
            }
        } else if u == 39 {
            // character literal 'c' for printable ASCII c
            if n - i > 2 && {
                let m = code.get_char(i + 1) as u32;
                32 <= m && m <= 126 && code.get_char(i + 2) as u32 == 39
            } {
                out.push(Ok(Token::Number((code.get_char(i + 1) as u32) as i64)));
                proof {
                    assert(spec_lex_from(code@, i_old) == spec_lex_from(code@, i_old
                        + 3).insert(0, lex_res_m(out@.last())));
                    lemma_shift(o_pre, out@.last(), spec_lex_from(code@, i_old + 3));
                }
                i += 3;
            } else {
                out.push(Err(LexingError::NonAsciiCharacter));
                proof {
                    assert(spec_lex_from(code@, i_old) == spec_lex_from(code@, i_old
                        + 1).insert(0, lex_res_m(out@.last())));
                    lemma_shift(o_pre, out@.last(), spec_lex_from(code@, i_old + 1));
                }
                i += 1;
            }
        } else {
            // the fixed symbols; positions no pattern matches yield an
            // error entry
            let (entry, width): (Result<Token, LexingError>, usize) = if u == 123 {
                (Ok(Token::OpeningCurlyBracket), 1)
            } else if u == 125 {
                (Ok(Token::ClosingCurlyBracket), 1)
            } else if u == 40 {
                (Ok(Token::OpeningRoundBracket), 1)
            } else if u == 41 {
                (Ok(Token::ClosingRoundBracket), 1)
            } else if u == 59 {
                (Ok(Token::Semicolon), 1)
            } else if u == 44 {
                (Ok(Token::Comma), 1)
            } else if u == 38 {
                if i + 1 < n && code.get_char(i + 1) as u32 == 38 {
                    (Ok(Token::LogicAnd), 2)
                } else {
                    (Err(LexingError::NonAsciiCharacter), 1)
                }
            } else if u == 124 {
                if i + 1 < n && code.get_char(i + 1) as u32 == 124 {
                    (Ok(Token::LogicOr), 2)
                } else {
                    (Err(LexingError::NonAsciiCharacter), 1)
                }
            } else if u == 61 {
                if i + 1 < n && code.get_char(i + 1) as u32 == 61 {
                    (Ok(Token::Equals), 2)
                } else {
                    (Ok(Token::Assignment), 1)
                }
            } else if u == 33 {
                if i + 1 < n && code.get_char(i + 1) as u32 == 61 {
                    (Ok(Token::NotEquals), 2)
                } else {
                    (Err(LexingError::NonAsciiCharacter), 1)
                }
            } else if u == 62 {
                if i + 1 < n && code.get_char(i + 1) as u32 == 61 {
                    (Ok(Token::GreaterEquals), 2)
                } else {
                    (Ok(Token::Greater), 1)
                }
            } else if u == 60 {
                if i + 1 < n && code.get_char(i + 1) as u32 == 61 {
                    (Ok(Token::LessEquals), 2)
                } else {
                    (Ok(Token::Less), 1)
                }
            } else if u == 43 {
                (Ok(Token::Addition), 1)
            } else if u == 42 {
                (Ok(Token::Multiplication), 1)
            } else if u == 47 {
                (Ok(Token::Division), 1)
            } else if u == 37 {
                (Ok(Token::Modulo), 1)
            } else {
                (Err(LexingError::NonAsciiCharacter), 1)
            };
            out.push(entry);
            proof {
                assert(spec_lex_from(code@, i_old) == spec_lex_from(code@, i_old
                    + width as int).insert(0, lex_res_m(out@.last())));
                lemma_shift(o_pre, out@.last(), spec_lex_from(code@, i_old + width as int));
            }
            i += width;
        }
    }
    proof {
        assert(spec_lex_from(code@, n as int) =~~= Seq::<Result<TokenM, LexErrM>>::empty());
        assert(lex_results_m(out@) + spec_lex_from(code@, n as int) =~~= lex_results_m(out@));
    }
    out
}

} // verus!
