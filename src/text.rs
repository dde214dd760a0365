//! Character classes and the scanning primitives that both parsers share.
use vstd::prelude::*;

use crate::error::{end_of_input, unexpected, ErrorKind, Failure, ParseError};

verus! {

/// Whether `char::is_alphanumeric` holds of a character.
pub uninterp spec fn alphanumeric(c: char) -> bool;

/// Relies on `char::is_alphanumeric`: whether a character is alphabetic or
/// numeric in Unicode's sense; among ASCII characters exactly the letters
/// and the digits.
#[verifier::external_body]
pub(crate) fn is_alphanumeric(c: char) -> (r: bool)
    ensures
        r == alphanumeric(c),
        (c as u32) < 128 ==> (r <==> ascii_alphanumeric(c)),
{
    c.is_alphanumeric()
}

/// Relies on `str::chars`: the characters of a string, in order.
#[verifier::external_body]
pub(crate) fn chars_of(s: &str) -> (r: Vec<char>)
    ensures
        r@ == s@,
{
    s.chars().collect()
}

/// Relies on `String`'s `FromIterator<&char>`: the string of the given characters.
#[verifier::external_body]
pub(crate) fn string_of(v: &Vec<char>) -> (r: String)
    ensures
        r@ == v@,
{
    v.iter().collect()
}

/// The bytes that the cursor treats as whitespace.
pub open spec fn is_ws(c: char) -> bool {
    c == ' ' || c == '\n' || c == '\r' || c == '\t'
}

pub open spec fn ascii_alphanumeric(c: char) -> bool {
    ('a' <= c && c <= 'z') || ('A' <= c && c <= 'Z') || ('0' <= c && c <= '9')
}

pub open spec fn is_digit(c: char) -> bool {
    '0' <= c && c <= '9'
}

/// A letter or a digit: an ASCII one, or any character beyond ASCII that
/// Unicode counts as alphabetic or numeric.
pub open spec fn word_char(c: char) -> bool {
    if (c as u32) < 128 {
        ascii_alphanumeric(c)
    } else {
        alphanumeric(c)
    }
}

/// A character of a citekey (`ext`) or of a field name (`!ext`).
pub open spec fn key_char(c: char, ext: bool) -> bool {
    word_char(c) || (ext && (c == '-' || c == '_' || c == ':'))
}

/// The first position at or after `i` that holds no whitespace (or the end).
pub open spec fn skip_ws(s: Seq<char>, i: int) -> int
    decreases s.len() - i,
{
    if 0 <= i < s.len() && is_ws(s[i]) {
        skip_ws(s, i + 1)
    } else {
        i
    }
}

/// The end of the maximal run of key characters that starts at `i`.
pub open spec fn run_end(s: Seq<char>, i: int, ext: bool) -> int
    decreases s.len() - i,
{
    if 0 <= i < s.len() && key_char(s[i], ext) {
        run_end(s, i + 1, ext)
    } else {
        i
    }
}

/// The end of the maximal run of ASCII digits that starts at `i`.
pub open spec fn digits_end(s: Seq<char>, i: int) -> int
    decreases s.len() - i,
{
    if 0 <= i < s.len() && is_digit(s[i]) {
        digits_end(s, i + 1)
    } else {
        i
    }
}

/// The first position at or after `i` that holds `c` (or the end).
pub open spec fn find_char(s: Seq<char>, i: int, c: char) -> int
    decreases s.len() - i,
{
    if 0 <= i < s.len() && s[i] != c {
        find_char(s, i + 1, c)
    } else {
        i
    }
}

/// A run of key characters at `i`, and the position after it. Reading the
/// character that ends the run fails at the end of the input.
pub open spec fn token(s: Seq<char>, i: int, ext: bool) -> Result<(Seq<char>, int), Failure> {
    let e = run_end(s, i, ext);
    if e >= s.len() {
        Err(end_of_input(e))
    } else {
        Ok((s.subrange(i, e), e))
    }
}

/// A citekey at `i`, with the whitespace around it, and the position after it.
pub open spec fn citekey(s: Seq<char>, i: int) -> Result<(Seq<char>, int), Failure> {
    match token(s, skip_ws(s, i), true) {
        Ok((k, e)) => Ok((k, skip_ws(s, e))),
        Err(f) => Err(f),
    }
}

/// The character `c` at `i`, and the position after it.
pub open spec fn expect(s: Seq<char>, i: int, c: char) -> Result<int, Failure> {
    if i >= s.len() {
        Err(end_of_input(i))
    } else if s[i] != c {
        Err(unexpected(i, s[i]))
    } else {
        Ok(i + 1)
    }
}

pub proof fn lemma_skip_ws(s: Seq<char>, i: int)
    requires
        0 <= i <= s.len(),
    ensures
        i <= skip_ws(s, i) <= s.len(),
        skip_ws(s, i) < s.len() ==> !is_ws(s[skip_ws(s, i)]),
        skip_ws(s, skip_ws(s, i)) == skip_ws(s, i),
    decreases s.len() - i,
{
    if i < s.len() && is_ws(s[i]) {
        lemma_skip_ws(s, i + 1);
    }
}

pub proof fn lemma_run_end(s: Seq<char>, i: int, ext: bool)
    requires
        0 <= i <= s.len(),
    ensures
        i <= run_end(s, i, ext) <= s.len(),
    decreases s.len() - i,
{
    if i < s.len() && key_char(s[i], ext) {
        lemma_run_end(s, i + 1, ext);
    }
}

pub proof fn lemma_digits_end(s: Seq<char>, i: int)
    requires
        0 <= i <= s.len(),
    ensures
        i <= digits_end(s, i) <= s.len(),
    decreases s.len() - i,
{
    if i < s.len() && is_digit(s[i]) {
        lemma_digits_end(s, i + 1);
    }
}

pub proof fn lemma_find_char(s: Seq<char>, i: int, c: char)
    requires
        0 <= i <= s.len(),
    ensures
        i <= find_char(s, i, c) <= s.len(),
        find_char(s, i, c) < s.len() ==> s[find_char(s, i, c)] == c,
    decreases s.len() - i,
{
    if i < s.len() && s[i] != c {
        lemma_find_char(s, i + 1, c);
    }
}

pub proof fn lemma_citekey(s: Seq<char>, i: int)
    requires
        0 <= i <= s.len(),
    ensures
        citekey(s, i) matches Ok((_, e)) ==> i <= e <= s.len(),
{
    lemma_skip_ws(s, i);
    lemma_run_end(s, skip_ws(s, i), true);
    lemma_skip_ws(s, run_end(s, skip_ws(s, i), true));
}

pub(crate) fn is_whitespace(c: char) -> (r: bool)
    ensures
        r == is_ws(c),
{
    c == ' ' || c == '\n' || c == '\r' || c == '\t'
}

pub(crate) fn skip_whitespace(s: &Vec<char>, i: usize) -> (r: usize)
    requires
        i <= s@.len(),
    ensures
        r == skip_ws(s@, i as int),
{
    let mut j = i;
    while j < s.len() && is_whitespace(s[j])
        invariant
            i <= j <= s@.len(),
            skip_ws(s@, j as int) == skip_ws(s@, i as int),
        decreases s@.len() - j,
    {
        j = j + 1;
    }
    j
}

pub(crate) fn find(s: &Vec<char>, i: usize, c: char) -> (r: usize)
    requires
        i <= s@.len(),
    ensures
        r == find_char(s@, i as int, c),
{
    let mut j = i;
    while j < s.len() && s[j] != c
        invariant
            i <= j <= s@.len(),
            find_char(s@, j as int, c) == find_char(s@, i as int, c),
        decreases s@.len() - j,
    {
        j = j + 1;
    }
    j
}

pub(crate) fn digits(s: &Vec<char>, i: usize) -> (r: usize)
    requires
        i <= s@.len(),
    ensures
        r == digits_end(s@, i as int),
{
    let mut j = i;
    while j < s.len() && '0' <= s[j] && s[j] <= '9'
        invariant
            i <= j <= s@.len(),
            digits_end(s@, j as int) == digits_end(s@, i as int),
        decreases s@.len() - j,
    {
        j = j + 1;
    }
    j
}

pub(crate) fn is_key_char(c: char, ext: bool) -> (r: bool)
    ensures
        r == key_char(c, ext),
{
    is_alphanumeric(c) || (ext && (c == '-' || c == '_' || c == ':'))
}

pub(crate) fn eof_error(pos: usize) -> (r: ParseError)
    ensures
        r@ == end_of_input(pos as int),
{
    ParseError { kind: ErrorKind::EndOfInput, pos, detail: String::new() }
}

pub(crate) fn unexpected_error(s: &Vec<char>, pos: usize) -> (r: ParseError)
    requires
        pos < s@.len(),
    ensures
        r@ == unexpected(pos as int, s@[pos as int]),
{
    let found = vec![s[pos]];
    let detail = string_of(&found);
    proof {
        assert(detail@ =~= seq![s@[pos as int]]);
    }
    ParseError { kind: ErrorKind::UnexpectedToken, pos, detail }
}

/// Reads a run of key characters at `i`.
pub(crate) fn read_token(s: &Vec<char>, i: usize, ext: bool) -> (r: Result<(String, usize), ParseError>)
    requires
        i <= s@.len(),
    ensures
        match (r, token(s@, i as int, ext)) {
            (Ok((k, e)), Ok((k2, e2))) => k@ == k2 && e as int == e2,
            (Err(f), Err(f2)) => f@ == f2,
            _ => false,
        },
{
    let mut v: Vec<char> = Vec::new();
    let mut j = i;
    while j < s.len() && is_key_char(s[j], ext)
        invariant
            i <= j <= s@.len(),
            run_end(s@, j as int, ext) == run_end(s@, i as int, ext),
            v@ == s@.subrange(i as int, j as int),
        decreases s@.len() - j,
    {
        v.push(s[j]);
        j = j + 1;
        assert(v@ =~= s@.subrange(i as int, j as int));
    }
    if j >= s.len() {
        return Err(eof_error(j));
    }
    Ok((string_of(&v), j))
}

/// Reads a citekey at `i`, with the whitespace around it.
pub(crate) fn read_citekey(s: &Vec<char>, i: usize) -> (r: Result<(String, usize), ParseError>)
    requires
        i <= s@.len(),
    ensures
        match (r, citekey(s@, i as int)) {
            (Ok((k, e)), Ok((k2, e2))) => k@ == k2 && e as int == e2,
            (Err(f), Err(f2)) => f@ == f2,
            _ => false,
        },
{
    let j = skip_whitespace(s, i);
    proof { lemma_skip_ws(s@, i as int); }
    match read_token(s, j, true) {
        Ok((k, e)) => Ok((k, skip_whitespace(s, e))),
        Err(f) => Err(f),
    }
}

/// Reads the character `c` at `i`.
pub(crate) fn expect_char(s: &Vec<char>, i: usize, c: char) -> (r: Result<usize, ParseError>)
    requires
        i <= s@.len(),
    ensures
        match (r, expect(s@, i as int, c)) {
            (Ok(e), Ok(e2)) => e as int == e2,
            (Err(f), Err(f2)) => f@ == f2,
            _ => false,
        },
{
    if i >= s.len() {
        Err(eof_error(i))
    } else if s[i] != c {
        Err(unexpected_error(s, i))
    } else {
        Ok(i + 1)
    }
}

} // verus!
