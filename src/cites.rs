//! The citation scanner: the keys of every `\cite` command of a document, in
//! order, skipping `\ignore{...}` blocks.
use vstd::prelude::*;

use crate::error::{end_of_input, failure, ErrorKind, Failure, ParseError};
use crate::text::{
    chars_of, citekey, eof_error, expect, expect_char, lemma_citekey, lemma_skip_ws, read_citekey,
    skip_whitespace, skip_ws,
};

verus! {

/// The characters of the strings of a sequence.
pub open spec fn texts(v: Seq<String>) -> Seq<Seq<char>> {
    v.map_values(|k: String| k@)
}

pub open spec fn ignore_word() -> Seq<char> {
    seq!['i', 'g', 'n', 'o', 'r', 'e']
}

pub open spec fn cite_word() -> Seq<char> {
    seq!['c', 'i', 't', 'e']
}

/// Whether `w` stands in `s` at `i`.
pub open spec fn matches_at(s: Seq<char>, i: int, w: Seq<char>) -> bool {
    0 <= i && i + w.len() <= s.len() && s.subrange(i, i + w.len()) == w
}

/// The position after the brace that closes a block whose depth at `i` is `depth`.
pub open spec fn block_end(s: Seq<char>, i: int, depth: nat) -> Result<int, Failure>
    decreases s.len() - i,
{
    if i < 0 || i >= s.len() {
        Err(failure(ErrorKind::UnterminatedBlock, s.len() as int, Seq::empty()))
    } else if s[i] == '}' {
        if depth <= 1 {
            Ok(i + 1)
        } else {
            block_end(s, i + 1, (depth - 1) as nat)
        }
    } else if s[i] == '{' {
        block_end(s, i + 1, depth + 1)
    } else {
        block_end(s, i + 1, depth)
    }
}

/// What follows `\ignore` at `i`: after whitespace, a balanced block, or a
/// single character that is not `{`, which is passed over.
pub open spec fn ignore_block(s: Seq<char>, i: int) -> Result<int, Failure> {
    let j = skip_ws(s, i);
    if j >= s.len() {
        Err(end_of_input(j))
    } else if s[j] != '{' {
        Ok(j + 1)
    } else {
        block_end(s, j + 1, 1)
    }
}

/// The position after the first `{` at or after `i` that stands outside all
/// square brackets, where `nest` brackets are open at `i`.
pub open spec fn key_list_start(s: Seq<char>, i: int, nest: int) -> Result<int, Failure>
    decreases s.len() - i,
{
    if i < 0 || i >= s.len() {
        Err(failure(ErrorKind::MissingKey, i, Seq::empty()))
    } else if s[i] == '[' {
        key_list_start(s, i + 1, nest + 1)
    } else if s[i] == ']' {
        key_list_start(s, i + 1, nest - 1)
    } else if s[i] != '{' || nest > 0 {
        key_list_start(s, i + 1, nest)
    } else {
        Ok(i + 1)
    }
}

/// The comma-separated citekeys at `i`, appended to `acc` (empty keys are
/// not appended), and the position after the last one.
pub open spec fn key_list(s: Seq<char>, i: int, acc: Seq<Seq<char>>) -> Result<
    (Seq<Seq<char>>, int),
    Failure,
>
    decreases s.len() - i,
    via key_list_decreases
{
    match citekey(s, i) {
        Err(f) => Err(f),
        Ok((k, e)) => {
            let acc2 = if k.len() == 0 {
                acc
            } else {
                acc.push(k)
            };
            if e >= s.len() {
                Err(end_of_input(e))
            } else if s[e] == ',' {
                key_list(s, e + 1, acc2)
            } else {
                Ok((acc2, e))
            }
        },
    }
}

#[via_fn]
proof fn key_list_decreases(s: Seq<char>, i: int, acc: Seq<Seq<char>>) {
    if 0 <= i <= s.len() {
        lemma_citekey(s, i);
    }
}

/// What follows `\cite` at `i`: optional bracketed arguments, then a braced
/// key list whose keys are appended to `acc`; and the position after it.
pub open spec fn cite_command(s: Seq<char>, i: int, acc: Seq<Seq<char>>) -> Result<
    (Seq<Seq<char>>, int),
    Failure,
> {
    match key_list_start(s, skip_ws(s, i), 0) {
        Err(f) => Err(f),
        Ok(k) => match key_list(s, k, acc) {
            Err(f) => Err(f),
            Ok((ks, e)) => match expect(s, skip_ws(s, e), '}') {
                Err(f) => Err(f),
                Ok(m) => Ok((ks, m)),
            },
        },
    }
}

/// The citekeys of the text from `i` on, appended to `acc`.
pub open spec fn scan(s: Seq<char>, i: int, acc: Seq<Seq<char>>) -> Result<Seq<Seq<char>>, Failure>
    decreases s.len() - i,
    via scan_decreases
{
    if i < 0 || i >= s.len() {
        Ok(acc)
    } else if s[i] != '\\' {
        scan(s, i + 1, acc)
    } else if matches_at(s, i + 1, ignore_word()) {
        match ignore_block(s, i + 7) {
            Err(f) => Err(f),
            Ok(j) => scan(s, j, acc),
        }
    } else if matches_at(s, i + 1, cite_word()) {
        match cite_command(s, i + 5, acc) {
            Err(f) => Err(f),
            Ok((ks, j)) => scan(s, j, ks),
        }
    } else {
        scan(s, i + 1, acc)
    }
}

#[via_fn]
proof fn scan_decreases(s: Seq<char>, i: int, acc: Seq<Seq<char>>) {
    if 0 <= i < s.len() {
        if matches_at(s, i + 1, ignore_word()) {
            lemma_ignore_block(s, i + 7);
        }
        if matches_at(s, i + 1, cite_word()) {
            lemma_cite_command(s, i + 5, acc);
        }
    }
}

/// Whether `r` is what scanning `src` gives: its keys, or its failure.
pub open spec fn scan_outcome(src: Seq<char>, r: Result<Vec<String>, ParseError>) -> bool {
    match (r, citations(src)) {
        (Ok(v), Ok(ks)) => texts(v@) == ks,
        (Err(f), Err(f2)) => f@ == f2,
        _ => false,
    }
}

/// The citekeys of a document, in order of appearance, one for each occurrence.
pub open spec fn citations(s: Seq<char>) -> Result<Seq<Seq<char>>, Failure> {
    scan(s, 0, Seq::empty())
}

pub proof fn lemma_block_end(s: Seq<char>, i: int, depth: nat)
    requires
        0 <= i,
    ensures
        block_end(s, i, depth) matches Ok(j) ==> i < j <= s.len(),
    decreases s.len() - i,
{
    if i < s.len() {
        if s[i] == '}' {
            if depth > 1 {
                lemma_block_end(s, i + 1, (depth - 1) as nat);
            }
        } else if s[i] == '{' {
            lemma_block_end(s, i + 1, depth + 1);
        } else {
            lemma_block_end(s, i + 1, depth);
        }
    }
}

pub proof fn lemma_ignore_block(s: Seq<char>, i: int)
    requires
        0 <= i <= s.len(),
    ensures
        ignore_block(s, i) matches Ok(j) ==> i < j <= s.len(),
{
    lemma_skip_ws(s, i);
    lemma_block_end(s, skip_ws(s, i) + 1, 1);
}

pub proof fn lemma_key_list_start(s: Seq<char>, i: int, nest: int)
    requires
        0 <= i,
    ensures
        key_list_start(s, i, nest) matches Ok(j) ==> i < j <= s.len(),
    decreases s.len() - i,
{
    if i < s.len() {
        if s[i] == '[' {
            lemma_key_list_start(s, i + 1, nest + 1);
        } else if s[i] == ']' {
            lemma_key_list_start(s, i + 1, nest - 1);
        } else if s[i] != '{' || nest > 0 {
            lemma_key_list_start(s, i + 1, nest);
        }
    }
}

pub proof fn lemma_key_list(s: Seq<char>, i: int, acc: Seq<Seq<char>>)
    requires
        0 <= i <= s.len(),
    ensures
        key_list(s, i, acc) matches Ok((_, e)) ==> i <= e <= s.len(),
    decreases s.len() - i,
{
    lemma_citekey(s, i);
    if let Ok((k, e)) = citekey(s, i) {
        let acc2 = if k.len() == 0 {
            acc
        } else {
            acc.push(k)
        };
        if e < s.len() && s[e] == ',' {
            lemma_key_list(s, e + 1, acc2);
        }
    }
}

pub proof fn lemma_cite_command(s: Seq<char>, i: int, acc: Seq<Seq<char>>)
    requires
        0 <= i <= s.len(),
    ensures
        cite_command(s, i, acc) matches Ok((_, j)) ==> i < j <= s.len(),
{
    lemma_skip_ws(s, i);
    let j = skip_ws(s, i);
    lemma_key_list_start(s, j, 0);
    if let Ok(k) = key_list_start(s, j, 0) {
        lemma_key_list(s, k, acc);
        if let Ok((_, e)) = key_list(s, k, acc) {
            lemma_skip_ws(s, e);
        }
    }
}

fn at_word(s: &Vec<char>, i: usize, w: &Vec<char>) -> (r: bool)
    ensures
        r == matches_at(s@, i as int, w@),
{
    if i > s.len() || w.len() > s.len() - i {
        return false;
    }
    let n = s.len();
    let mut k: usize = 0;
    while k < w.len()
        invariant
            n == s@.len(),
            i + w@.len() <= s@.len(),
            k <= w@.len(),
            forall|m: int| 0 <= m < k ==> s@[i + m] == w@[m],
        decreases w@.len() - k,
    {
        if s[i + k] != w[k] {
            assert(s@.subrange(i as int, i + w@.len())[k as int] != w@[k as int]);
            return false;
        }
        k = k + 1;
    }
    assert(s@.subrange(i as int, i + w@.len()) =~= w@);
    true
}

/// Skips what follows `\ignore` at `i`.
fn ignore_text(s: &Vec<char>, i: usize) -> (r: Result<usize, ParseError>)
    requires
        i <= s@.len(),
    ensures
        match (r, ignore_block(s@, i as int)) {
            (Ok(e), Ok(e2)) => e as int == e2,
            (Err(f), Err(f2)) => f@ == f2,
            _ => false,
        },
{
    let j = skip_whitespace(s, i);
    proof {
        lemma_skip_ws(s@, i as int);
    }
    if j >= s.len() {
        return Err(eof_error(j));
    }
    if s[j] != '{' {
        return Ok(j + 1);
    }
    let start = j + 1;
    let mut k = start;
    let mut depth: usize = 1;
    loop
        invariant
            1 <= start <= k <= s@.len(),
            1 <= depth <= k - start + 1,
            j == skip_ws(s@, i as int),
            start == j + 1,
            j < s@.len(),
            s@[j as int] == '{',
            block_end(s@, k as int, depth as nat) == block_end(s@, start as int, 1),
        decreases s@.len() - k,
    {
        if k >= s.len() {
            return Err(
                ParseError {
                    kind: ErrorKind::UnterminatedBlock,
                    pos: s.len(),
                    detail: String::new(),
                },
            );
        }
        if s[k] == '}' {
            if depth == 1 {
                return Ok(k + 1);
            }
            depth = depth - 1;
        } else if s[k] == '{' {
            depth = depth + 1;
        }
        k = k + 1;
    }
}

/// Moves past the optional arguments of a citation to the brace that opens
/// its key list.
fn move_to_key_list(s: &Vec<char>, i: usize) -> (r: Result<usize, ParseError>)
    requires
        i <= s@.len(),
    ensures
        match (r, key_list_start(s@, i as int, 0)) {
            (Ok(e), Ok(e2)) => e as int == e2,
            (Err(f), Err(f2)) => f@ == f2,
            _ => false,
        },
{
    let mut j = i;
    let mut opens: usize = 0;
    let mut closes: usize = 0;
    loop
        invariant
            i <= j <= s@.len(),
            opens <= j - i,
            closes <= j - i,
            key_list_start(s@, j as int, opens - closes) == key_list_start(s@, i as int, 0),
        decreases s@.len() - j,
    {
        if j >= s.len() {
            return Err(ParseError { kind: ErrorKind::MissingKey, pos: j, detail: String::new() });
        }
        let c = s[j];
        if c == '[' {
            opens = opens + 1;
        } else if c == ']' {
            closes = closes + 1;
        } else if c == '{' && opens <= closes {
            return Ok(j + 1);
        }
        j = j + 1;
    }
}

/// Reads the comma-separated citekeys at `i`, appending the non-empty ones to `acc`.
fn read_key_list(s: &Vec<char>, i: usize, acc: &mut Vec<String>) -> (r: Result<usize, ParseError>)
    requires
        i <= s@.len(),
    ensures
        match (r, key_list(s@, i as int, texts(old(acc)@))) {
            (Ok(e), Ok((ks, e2))) => e as int == e2 && texts(final(acc)@) == ks,
            (Err(f), Err(f2)) => f@ == f2,
            _ => false,
        },
{
    let mut j = i;
    loop
        invariant
            i <= j <= s@.len(),
            key_list(s@, j as int, texts(acc@)) == key_list(s@, i as int, texts(old(acc)@)),
        decreases s@.len() - j,
    {
        proof {
            lemma_citekey(s@, j as int);
        }
        let ghost before = texts(acc@);
        match read_citekey(s, j) {
            Err(f) => {
                return Err(f);
            },
            Ok((k, e)) => {
                if !k.as_str().is_empty() {
                    acc.push(k);
                    assert(texts(acc@) =~= before.push(k@));
                } else {
                    assert(k@.len() == 0);
                }
                if e >= s.len() {
                    return Err(eof_error(e));
                }
                if s[e] != ',' {
                    return Ok(e);
                }
                j = e + 1;
            },
        }
    }
}

/// Reads what follows `\cite` at `i`, appending its keys to `acc`.
fn read_cite(s: &Vec<char>, i: usize, acc: &mut Vec<String>) -> (r: Result<usize, ParseError>)
    requires
        i <= s@.len(),
    ensures
        match (r, cite_command(s@, i as int, texts(old(acc)@))) {
            (Ok(e), Ok((ks, e2))) => e as int == e2 && texts(final(acc)@) == ks,
            (Err(f), Err(f2)) => f@ == f2,
            _ => false,
        },
{
    let j = skip_whitespace(s, i);
    proof {
        lemma_skip_ws(s@, i as int);
    }
    let k = match move_to_key_list(s, j) {
        Err(f) => {
            return Err(f);
        },
        Ok(k) => k,
    };
    proof {
        lemma_key_list_start(s@, j as int, 0);
    }
    let e = match read_key_list(s, k, acc) {
        Err(f) => {
            return Err(f);
        },
        Ok(e) => e,
    };
    proof {
        lemma_key_list(s@, k as int, texts(old(acc)@));
    }
    let m = skip_whitespace(s, e);
    proof {
        lemma_skip_ws(s@, e as int);
    }
    expect_char(s, m, '}')
}

/// The citekeys of the citation commands of `src`, in order of appearance and
/// one for each occurrence. Text inside `\ignore{...}` blocks, whatever their
/// nesting of braces, is passed over; a backslash that starts neither command
/// is ordinary text.
pub fn collect_cites(src: &str) -> (r: Result<Vec<String>, ParseError>)
    ensures
        scan_outcome(src@, r),
{
    let s = chars_of(src);
    let ignore = vec!['i', 'g', 'n', 'o', 'r', 'e'];
    let cite = vec!['c', 'i', 't', 'e'];
    assert(ignore@ =~= ignore_word());
    assert(cite@ =~= cite_word());
    let mut acc: Vec<String> = Vec::new();
    let mut i: usize = 0;
    assert(texts(acc@) =~= Seq::<Seq<char>>::empty());
    while i < s.len()
        invariant
            i <= s@.len(),
            s@ == src@,
            ignore@ == ignore_word(),
            cite@ == cite_word(),
            scan(s@, i as int, texts(acc@)) == citations(src@),
        decreases s@.len() - i,
    {
        if s[i] != '\\' {
            i = i + 1;
        } else if at_word(&s, i + 1, &ignore) {
            match ignore_text(&s, i + 7) {
                Err(f) => {
                    return Err(f);
                },
                Ok(j) => {
                    proof {
                        lemma_ignore_block(s@, i + 7);
                    }
                    i = j;
                },
            }
        } else if at_word(&s, i + 1, &cite) {
            let ghost before = texts(acc@);
            match read_cite(&s, i + 5, &mut acc) {
                Err(f) => {
                    return Err(f);
                },
                Ok(j) => {
                    proof {
                        lemma_cite_command(s@, i + 5, before);
                    }
                    i = j;
                },
            }
        } else {
            i = i + 1;
        }
    }
    Ok(acc)
}

} // verus!
