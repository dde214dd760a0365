//! The bibliography grammar: entries of the form
//! `@type{key, name = value, ...}`.
use vstd::prelude::*;

use crate::error::{end_of_input, failure, ErrorKind, Failure, ParseError};
use crate::text::{
    chars_of, citekey, digits, digits_end, eof_error, expect, expect_char, find_char,
    lemma_citekey, lemma_digits_end, lemma_find_char, lemma_run_end,
    lemma_skip_ws, read_citekey, read_token, run_end, skip_whitespace, skip_ws, string_of,
    token, unexpected_error, is_digit,
};

verus! {

/// The publication types that the grammar knows.
#[derive(Debug, Clone, Copy, PartialEq, Eq, Structural)]
pub enum PubType {
    Book,
    Article,
    Incol,
    Inproc,
    Misc,
}

/// One bibliographic record. A field that the source does not give is empty.
#[derive(Debug)]
pub struct BibEntry {
    pub pubtype: PubType,
    pub key: String,
    pub author: String,
    pub title: String,
    pub date: String,
}

/// What a `BibEntry` holds.
pub struct Entry {
    pub pubtype: PubType,
    pub key: Seq<char>,
    pub author: Seq<char>,
    pub title: Seq<char>,
    pub date: Seq<char>,
}

impl View for BibEntry {
    type V = Entry;

    open spec fn view(&self) -> Entry {
        Entry {
            pubtype: self.pubtype,
            key: self.key@,
            author: self.author@,
            title: self.title@,
            date: self.date@,
        }
    }
}

impl PartialEq for BibEntry {
    fn eq(&self, o: &BibEntry) -> (r: bool) {
        self.pubtype == o.pubtype && self.key == o.key && self.author == o.author
            && self.title == o.title && self.date == o.date
    }
}

impl vstd::std_specs::cmp::PartialEqSpecImpl for BibEntry {
    open spec fn obeys_eq_spec() -> bool {
        true
    }

    open spec fn eq_spec(&self, o: &BibEntry) -> bool {
        self@ == o@
    }
}

impl BibEntry {
    /// An entry of type `Misc` with every field empty.
    pub fn empty() -> (r: BibEntry)
        ensures
            r@ == (Entry {
                pubtype: PubType::Misc,
                key: Seq::empty(),
                author: Seq::empty(),
                title: Seq::empty(),
                date: Seq::empty(),
            }),
    {
        BibEntry {
            pubtype: PubType::Misc,
            key: String::new(),
            author: String::new(),
            title: String::new(),
            date: String::new(),
        }
    }
}

/// The lower-case keyword of a publication type.
pub open spec fn keyword(t: PubType) -> Seq<char> {
    match t {
        PubType::Book => seq!['b', 'o', 'o', 'k'],
        PubType::Article => seq!['a', 'r', 't', 'i', 'c', 'l', 'e'],
        PubType::Inproc => seq![
            'i', 'n', 'p', 'r', 'o', 'c', 'e', 'e', 'd', 'i', 'n', 'g', 's',
        ],
        PubType::Incol => seq!['i', 'n', 'c', 'o', 'l', 'l', 'e', 'c', 't', 'i', 'o', 'n'],
        PubType::Misc => seq!['m', 'i', 's', 'c'],
    }
}

/// Whether `c` is the lower-case ASCII letter `p` in either case.
pub open spec fn eq_ignoring_case(c: char, p: char) -> bool {
    c == p || (c as u32) + 32 == (p as u32)
}

/// Whether the lower-case word `w` stands at `i` in any mix of cases.
pub open spec fn matches_ic(s: Seq<char>, i: int, w: Seq<char>) -> bool {
    0 <= i && i + w.len() <= s.len() && forall|k: int|
        0 <= k < w.len() ==> eq_ignoring_case(#[trigger] s[i + k], w[k])
}

/// The first publication type, in the order book, article, inproceedings,
/// incollection, misc, whose keyword stands at `i`.
pub open spec fn pubtype_at(s: Seq<char>, i: int) -> Option<PubType> {
    if matches_ic(s, i, keyword(PubType::Book)) {
        Some(PubType::Book)
    } else if matches_ic(s, i, keyword(PubType::Article)) {
        Some(PubType::Article)
    } else if matches_ic(s, i, keyword(PubType::Inproc)) {
        Some(PubType::Inproc)
    } else if matches_ic(s, i, keyword(PubType::Incol)) {
        Some(PubType::Incol)
    } else if matches_ic(s, i, keyword(PubType::Misc)) {
        Some(PubType::Misc)
    } else {
        None
    }
}

/// A sequence without its braces.
pub open spec fn unbraced(t: Seq<char>) -> Seq<char>
    decreases t.len(),
{
    if t.len() == 0 {
        Seq::empty()
    } else if t.last() == '{' || t.last() == '}' {
        unbraced(t.drop_last())
    } else {
        unbraced(t.drop_last()).push(t.last())
    }
}

/// A field value at `i` and the position after it and the whitespace that
/// follows: quoted, braced (the first `}` closes it), or a run of digits.
/// Braces inside a delimited value are dropped.
pub open spec fn value(s: Seq<char>, i: int) -> Result<(Seq<char>, int), Failure> {
    let j = skip_ws(s, i);
    if j >= s.len() {
        Err(end_of_input(j))
    } else if s[j] == '"' || s[j] == '{' {
        let closer = if s[j] == '"' {
            '"'
        } else {
            '}'
        };
        let e = find_char(s, j + 1, closer);
        if e >= s.len() {
            Err(end_of_input(e))
        } else {
            Ok((unbraced(s.subrange(j + 1, e)), skip_ws(s, e + 1)))
        }
    } else if is_digit(s[j]) {
        let e = digits_end(s, j);
        if e >= s.len() {
            Err(end_of_input(e))
        } else {
            Ok((s.subrange(j, e), skip_ws(s, e)))
        }
    } else {
        Err(failure(ErrorKind::UnexpectedToken, j, seq![s[j]]))
    }
}

/// A field `name = value` at `i`, and the position after it.
pub open spec fn header(s: Seq<char>, i: int) -> Result<((Seq<char>, Seq<char>), int), Failure> {
    match token(s, skip_ws(s, i), false) {
        Err(f) => Err(f),
        Ok((name, e)) => match expect(s, skip_ws(s, e), '=') {
            Err(f) => Err(f),
            Ok(k) => match value(s, k) {
                Err(f) => Err(f),
                Ok((v, m)) => Ok(((name, v), m)),
            },
        },
    }
}

/// Whether a field of that name is among `fs`.
pub open spec fn has_name(fs: Seq<(Seq<char>, Seq<char>)>, name: Seq<char>) -> bool {
    exists|m: int| 0 <= m < fs.len() && (#[trigger] fs[m]).0 == name
}

/// The comma-separated fields at `i`, appended to `fs`, and the position
/// after the last one. A name given twice fails.
pub open spec fn headers(s: Seq<char>, i: int, fs: Seq<(Seq<char>, Seq<char>)>) -> Result<
    (Seq<(Seq<char>, Seq<char>)>, int),
    Failure,
>
    decreases s.len() - i,
    via headers_decreases
{
    match header(s, i) {
        Err(f) => Err(f),
        // no position lies before the input; ruling that out keeps the
        // recursion well-founded
        Ok((h, j)) => if i < 0 {
            Err(end_of_input(i))
        } else if has_name(fs, h.0) {
            Err(failure(ErrorKind::DuplicateField, j, h.0))
        } else {
            let k = skip_ws(s, j);
            if k >= s.len() {
                Err(end_of_input(k))
            } else if s[k] == ',' {
                headers(s, k + 1, fs.push(h))
            } else {
                Ok((fs.push(h), k))
            }
        },
    }
}

#[via_fn]
proof fn headers_decreases(s: Seq<char>, i: int, fs: Seq<(Seq<char>, Seq<char>)>) {
    if 0 <= i <= s.len() {
        lemma_header(s, i);
        if let Ok((_, j)) = header(s, i) {
            lemma_skip_ws(s, j);
        }
    } else {
        assert(skip_ws(s, i) == i);
        assert(run_end(s, i, false) == i);
    }
}

/// The value of the field of that name, empty where there is none.
pub open spec fn field(fs: Seq<(Seq<char>, Seq<char>)>, name: Seq<char>) -> Seq<char>
    decreases fs.len(),
{
    if fs.len() == 0 {
        Seq::empty()
    } else if fs[0].0 == name {
        fs[0].1
    } else {
        field(fs.drop_first(), name)
    }
}

pub open spec fn author_name() -> Seq<char> {
    seq!['a', 'u', 't', 'h', 'o', 'r']
}

pub open spec fn title_name() -> Seq<char> {
    seq!['t', 'i', 't', 'l', 'e']
}

pub open spec fn date_name() -> Seq<char> {
    seq!['d', 'a', 't', 'e']
}

/// The entry of a publication type, a key and its fields.
pub open spec fn make_entry(t: PubType, key: Seq<char>, fs: Seq<(Seq<char>, Seq<char>)>) -> Entry {
    Entry {
        pubtype: t,
        key,
        author: field(fs, author_name()),
        title: field(fs, title_name()),
        date: field(fs, date_name()),
    }
}

/// What follows the publication type at `i`: `{key, fields}`.
pub open spec fn body(s: Seq<char>, i: int, t: PubType) -> Result<(Entry, int), Failure> {
    match expect(s, skip_ws(s, i), '{') {
        Err(f) => Err(f),
        Ok(j) => match citekey(s, j) {
            Err(f) => Err(f),
            Ok((key, e)) => match expect(s, e, ',') {
                Err(f) => Err(f),
                Ok(m) => match headers(s, m, Seq::empty()) {
                    Err(f) => Err(f),
                    Ok((fs, h)) => match expect(s, h, '}') {
                        Err(f) => Err(f),
                        Ok(z) => Ok((make_entry(t, key, fs), z)),
                    },
                },
            },
        },
    }
}

/// An entry at `i`, and the position after it. An unknown publication type
/// fails where it stands, and names the word found there.
pub open spec fn entry(s: Seq<char>, i: int) -> Result<(Entry, int), Failure> {
    match expect(s, skip_ws(s, i), '@') {
        Err(f) => Err(f),
        Ok(j) => match pubtype_at(s, j) {
            None => Err(
                failure(ErrorKind::UnexpectedToken, j, s.subrange(j, run_end(s, j, false))),
            ),
            Some(t) => body(s, j + keyword(t).len(), t),
        },
    }
}

/// The entries from `i` to the end of the input, appended to `acc`.
pub open spec fn entries(s: Seq<char>, i: int, acc: Seq<Entry>) -> Result<Seq<Entry>, Failure>
    decreases s.len() - i,
    via entries_decreases
{
    let j = skip_ws(s, i);
    if i < 0 || j >= s.len() {
        Ok(acc)
    } else {
        match entry(s, j) {
            Err(f) => Err(f),
            Ok((e, k)) => entries(s, k, acc.push(e)),
        }
    }
}

#[via_fn]
proof fn entries_decreases(s: Seq<char>, i: int, acc: Seq<Entry>) {
    if 0 <= i <= s.len() {
        lemma_skip_ws(s, i);
        if skip_ws(s, i) < s.len() {
            lemma_entry(s, skip_ws(s, i));
        }
    } else if i > s.len() {
        assert(skip_ws(s, i) == i);
    }
}

/// The entries of a bibliography: one or more, back to back, with whitespace
/// around them.
pub open spec fn bibliography(s: Seq<char>) -> Result<Seq<Entry>, Failure> {
    if skip_ws(s, 0) >= s.len() {
        Err(end_of_input(s.len() as int))
    } else {
        entries(s, 0, Seq::empty())
    }
}

pub proof fn lemma_value(s: Seq<char>, i: int)
    requires
        0 <= i <= s.len(),
    ensures
        value(s, i) matches Ok((_, e)) ==> i < e <= s.len(),
{
    lemma_skip_ws(s, i);
    let j = skip_ws(s, i);
    if j < s.len() {
        lemma_find_char(s, j + 1, '"');
        lemma_find_char(s, j + 1, '}');
        lemma_digits_end(s, j);
        if is_digit(s[j]) {
            lemma_digits_end(s, j + 1);
        }
        if s[j] == '"' || s[j] == '{' {
            let closer = if s[j] == '"' {
                '"'
            } else {
                '}'
            };
            let e = find_char(s, j + 1, closer);
            if e < s.len() {
                lemma_skip_ws(s, e + 1);
            }
        } else if is_digit(s[j]) {
            let e = digits_end(s, j);
            if e < s.len() {
                lemma_skip_ws(s, e);
            }
        }
    }
}

pub proof fn lemma_header(s: Seq<char>, i: int)
    requires
        0 <= i <= s.len(),
    ensures
        header(s, i) matches Ok((_, e)) ==> i < e <= s.len(),
{
    lemma_skip_ws(s, i);
    lemma_run_end(s, skip_ws(s, i), false);
    let e = run_end(s, skip_ws(s, i), false);
    lemma_skip_ws(s, e);
    if skip_ws(s, e) < s.len() {
        lemma_value(s, skip_ws(s, e) + 1);
    }
}

pub proof fn lemma_headers(s: Seq<char>, i: int, fs: Seq<(Seq<char>, Seq<char>)>)
    requires
        0 <= i <= s.len(),
    ensures
        headers(s, i, fs) matches Ok((_, e)) ==> i < e <= s.len(),
    decreases s.len() - i,
{
    lemma_header(s, i);
    if let Ok((h, j)) = header(s, i) {
        lemma_skip_ws(s, j);
        let k = skip_ws(s, j);
        if !has_name(fs, h.0) && k < s.len() && s[k] == ',' {
            lemma_headers(s, k + 1, fs.push(h));
        }
    }
}

pub proof fn lemma_entry(s: Seq<char>, i: int)
    requires
        0 <= i <= s.len(),
    ensures
        entry(s, i) matches Ok((_, e)) ==> i < e <= s.len(),
{
    lemma_skip_ws(s, i);
    let j = skip_ws(s, i) + 1;
    if let Some(t) = pubtype_at(s, j) {
        let b = j + keyword(t).len();
        lemma_skip_ws(s, b);
        let c = skip_ws(s, b) + 1;
        if c <= s.len() {
            lemma_citekey(s, c);
            if let Ok((_, e)) = citekey(s, c) {
                if e < s.len() {
                    lemma_headers(s, e + 1, Seq::empty());
                }
            }
        }
    }
}

/// The characters of the fields.
pub open spec fn pairs(v: Seq<(String, String)>) -> Seq<(Seq<char>, Seq<char>)> {
    v.map_values(|p: (String, String)| (p.0@, p.1@))
}

/// What the entries hold.
pub open spec fn entry_views(v: Seq<BibEntry>) -> Seq<Entry> {
    v.map_values(|e: BibEntry| e@)
}

fn keyword_chars(t: PubType) -> (r: Vec<char>)
    ensures
        r@ == keyword(t),
{
    let v = match t {
        PubType::Book => vec!['b', 'o', 'o', 'k'],
        PubType::Article => vec!['a', 'r', 't', 'i', 'c', 'l', 'e'],
        PubType::Inproc => vec![
            'i', 'n', 'p', 'r', 'o', 'c', 'e', 'e', 'd', 'i', 'n', 'g', 's',
        ],
        PubType::Incol => vec!['i', 'n', 'c', 'o', 'l', 'l', 'e', 'c', 't', 'i', 'o', 'n'],
        PubType::Misc => vec!['m', 'i', 's', 'c'],
    };
    assert(v@ =~= keyword(t));
    v
}

fn at_keyword(s: &Vec<char>, i: usize, w: &Vec<char>) -> (r: bool)
    ensures
        r == matches_ic(s@, i as int, w@),
{
    if i > s.len() || w.len() > s.len() - i {
        return false;
    }
    let n = s.len();
    let mut k: usize = 0;
    while k < w.len()
        invariant
            n == s@.len(),
            i + w@.len() <= s@.len(),
            k <= w@.len(),
            forall|m: int| 0 <= m < k ==> eq_ignoring_case(#[trigger] s@[i + m], w@[m]),
        decreases w@.len() - k,
    {
        let c = s[i + k];
        let p = w[k];
        if !(c == p || (p as u32 >= 32 && c as u32 == p as u32 - 32)) {
            assert(!eq_ignoring_case(s@[i + k as int], w@[k as int]));
            return false;
        }
        k = k + 1;
    }
    true
}

fn read_pubtype(s: &Vec<char>, i: usize) -> (r: Option<PubType>)
    ensures
        r == pubtype_at(s@, i as int),
{
    if at_keyword(s, i, &keyword_chars(PubType::Book)) {
        Some(PubType::Book)
    } else if at_keyword(s, i, &keyword_chars(PubType::Article)) {
        Some(PubType::Article)
    } else if at_keyword(s, i, &keyword_chars(PubType::Inproc)) {
        Some(PubType::Inproc)
    } else if at_keyword(s, i, &keyword_chars(PubType::Incol)) {
        Some(PubType::Incol)
    } else if at_keyword(s, i, &keyword_chars(PubType::Misc)) {
        Some(PubType::Misc)
    } else {
        None
    }
}

/// Reads a field value at `i`.
fn read_value(s: &Vec<char>, i: usize) -> (r: Result<(String, usize), ParseError>)
    requires
        i <= s@.len(),
    ensures
        match (r, value(s@, i as int)) {
            (Ok((v, e)), Ok((v2, e2))) => v@ == v2 && e as int == e2,
            (Err(f), Err(f2)) => f@ == f2,
            _ => false,
        },
{
    let j = skip_whitespace(s, i);
    proof {
        lemma_skip_ws(s@, i as int);
    }
    if j >= s.len() {
        return Err(eof_error(j));
    }
    let b = s[j];
    if b == '"' || b == '{' {
        let closer = if b == '"' {
            '"'
        } else {
            '}'
        };
        let mut v: Vec<char> = Vec::new();
        let mut k = j + 1;
        while k < s.len() && s[k] != closer
            invariant
                j + 1 <= k <= s@.len(),
                find_char(s@, k as int, closer) == find_char(s@, j + 1, closer),
                v@ == unbraced(s@.subrange(j + 1, k as int)),
            decreases s@.len() - k,
        {
            let c = s[k];
            let ghost t = s@.subrange(j + 1, k + 1);
            assert(t.drop_last() =~= s@.subrange(j + 1, k as int));
            if c != '{' && c != '}' {
                v.push(c);
            }
            k = k + 1;
        }
        if k >= s.len() {
            return Err(eof_error(k));
        }
        let e = skip_whitespace(s, k + 1);
        Ok((string_of(&v), e))
    } else if '0' <= b && b <= '9' {
        let e = digits(s, j);
        proof {
            lemma_digits_end(s@, j as int);
        }
        if e >= s.len() {
            return Err(eof_error(e));
        }
        let mut v: Vec<char> = Vec::new();
        let mut k = j;
        while k < e
            invariant
                j <= k <= e,
                e < s@.len(),
                v@ == s@.subrange(j as int, k as int),
            decreases e - k,
        {
            v.push(s[k]);
            k = k + 1;
            assert(v@ =~= s@.subrange(j as int, k as int));
        }
        Ok((string_of(&v), skip_whitespace(s, e)))
    } else {
        Err(unexpected_error(s, j))
    }
}

/// Reads a field `name = value` at `i`.
fn read_header(s: &Vec<char>, i: usize) -> (r: Result<(String, String, usize), ParseError>)
    requires
        i <= s@.len(),
    ensures
        match (r, header(s@, i as int)) {
            (Ok((n, v, e)), Ok((h, e2))) => n@ == h.0 && v@ == h.1 && e as int == e2,
            (Err(f), Err(f2)) => f@ == f2,
            _ => false,
        },
{
    let j = skip_whitespace(s, i);
    proof {
        lemma_skip_ws(s@, i as int);
    }
    let (name, e) = match read_token(s, j, false) {
        Err(f) => {
            return Err(f);
        },
        Ok(p) => p,
    };
    proof {
        lemma_run_end(s@, j as int, false);
    }
    let m = skip_whitespace(s, e);
    proof {
        lemma_skip_ws(s@, e as int);
    }
    let k = match expect_char(s, m, '=') {
        Err(f) => {
            return Err(f);
        },
        Ok(k) => k,
    };
    match read_value(s, k) {
        Err(f) => Err(f),
        Ok((v, z)) => Ok((name, v, z)),
    }
}

fn contains_name(fs: &Vec<(String, String)>, name: &String) -> (r: bool)
    ensures
        r == has_name(pairs(fs@), name@),
{
    let mut k: usize = 0;
    while k < fs.len()
        invariant
            k <= fs@.len(),
            forall|m: int| 0 <= m < k ==> (#[trigger] pairs(fs@)[m]).0 != name@,
        decreases fs@.len() - k,
    {
        if fs[k].0 == *name {
            assert(pairs(fs@)[k as int].0 == name@);
            return true;
        }
        k = k + 1;
    }
    false
}

fn field_value(fs: &Vec<(String, String)>, name: &Vec<char>) -> (r: String)
    ensures
        r@ == field(pairs(fs@), name@),
{
    let wanted = string_of(name);
    let ghost all = pairs(fs@);
    assert(all.subrange(0, all.len() as int) =~= all);
    let mut k: usize = 0;
    while k < fs.len()
        invariant
            k <= fs@.len(),
            all == pairs(fs@),
            wanted@ == name@,
            field(all, name@) == field(all.subrange(k as int, all.len() as int), name@),
        decreases fs@.len() - k,
    {
        let ghost rest = all.subrange(k as int, all.len() as int);
        assert(rest.drop_first() =~= all.subrange(k + 1, all.len() as int));
        if fs[k].0 == wanted {
            assert(rest[0] == all[k as int]);
            return fs[k].1.clone();
        }
        k = k + 1;
    }
    String::new()
}

/// Reads the comma-separated fields at `i`, appending them to `fs`.
fn read_headers(s: &Vec<char>, i: usize, fs: &mut Vec<(String, String)>) -> (r: Result<usize, ParseError>)
    requires
        i <= s@.len(),
    ensures
        match (r, headers(s@, i as int, pairs(old(fs)@))) {
            (Ok(e), Ok((hs, e2))) => e as int == e2 && pairs(final(fs)@) == hs,
            (Err(f), Err(f2)) => f@ == f2,
            _ => false,
        },
{
    let mut j = i;
    loop
        invariant
            i <= j <= s@.len(),
            headers(s@, j as int, pairs(fs@)) == headers(s@, i as int, pairs(old(fs)@)),
        decreases s@.len() - j,
    {
        proof {
            lemma_header(s@, j as int);
        }
        let (name, v, e) = match read_header(s, j) {
            Err(f) => {
                return Err(f);
            },
            Ok(h) => h,
        };
        if contains_name(fs, &name) {
            return Err(ParseError { kind: ErrorKind::DuplicateField, pos: e, detail: name });
        }
        let ghost before = pairs(fs@);
        fs.push((name, v));
        assert(pairs(fs@) =~= before.push((name@, v@)));
        let k = skip_whitespace(s, e);
        proof {
            lemma_skip_ws(s@, e as int);
        }
        if k >= s.len() {
            return Err(eof_error(k));
        }
        if s[k] != ',' {
            return Ok(k);
        }
        j = k + 1;
    }
}

/// Reads what follows the publication type `t` at `i`.
fn read_body(s: &Vec<char>, i: usize, t: PubType) -> (r: Result<(BibEntry, usize), ParseError>)
    requires
        i <= s@.len(),
    ensures
        match (r, body(s@, i as int, t)) {
            (Ok((b, e)), Ok((b2, e2))) => b@ == b2 && e as int == e2,
            (Err(f), Err(f2)) => f@ == f2,
            _ => false,
        },
{
    let j = skip_whitespace(s, i);
    proof {
        lemma_skip_ws(s@, i as int);
    }
    let j = match expect_char(s, j, '{') {
        Err(f) => {
            return Err(f);
        },
        Ok(j) => j,
    };
    let (key, e) = match read_citekey(s, j) {
        Err(f) => {
            return Err(f);
        },
        Ok(p) => p,
    };
    proof {
        lemma_citekey(s@, j as int);
    }
    let m = match expect_char(s, e, ',') {
        Err(f) => {
            return Err(f);
        },
        Ok(m) => m,
    };
    let mut fs: Vec<(String, String)> = Vec::new();
    assert(pairs(fs@) =~= Seq::<(Seq<char>, Seq<char>)>::empty());
    let h = match read_headers(s, m, &mut fs) {
        Err(f) => {
            return Err(f);
        },
        Ok(h) => h,
    };
    proof {
        lemma_headers(s@, m as int, Seq::empty());
    }
    let z = match expect_char(s, h, '}') {
        Err(f) => {
            return Err(f);
        },
        Ok(z) => z,
    };
    let author_key = vec!['a', 'u', 't', 'h', 'o', 'r'];
    let title_key = vec!['t', 'i', 't', 'l', 'e'];
    let date_key = vec!['d', 'a', 't', 'e'];
    assert(author_key@ =~= author_name());
    assert(title_key@ =~= title_name());
    assert(date_key@ =~= date_name());
    let b = BibEntry {
        pubtype: t,
        key,
        author: field_value(&fs, &author_key),
        title: field_value(&fs, &title_key),
        date: field_value(&fs, &date_key),
    };
    Ok((b, z))
}

/// Reads an entry at `i`.
fn read_entry(s: &Vec<char>, i: usize) -> (r: Result<(BibEntry, usize), ParseError>)
    requires
        i <= s@.len(),
    ensures
        match (r, entry(s@, i as int)) {
            (Ok((b, e)), Ok((b2, e2))) => b@ == b2 && e as int == e2,
            (Err(f), Err(f2)) => f@ == f2,
            _ => false,
        },
{
    let j = skip_whitespace(s, i);
    proof {
        lemma_skip_ws(s@, i as int);
    }
    let j = match expect_char(s, j, '@') {
        Err(f) => {
            return Err(f);
        },
        Ok(j) => j,
    };
    match read_pubtype(s, j) {
        Some(t) => {
            let w = keyword_chars(t);
            if w.len() > s.len() - j {
                proof {
                    assert(!matches_ic(s@, j as int, keyword(t)));
                }
                return Err(eof_error(j));
            }
            read_body(s, j + w.len(), t)
        },
        None => match read_token(s, j, false) {
            Ok((word, _)) => Err(
                ParseError { kind: ErrorKind::UnexpectedToken, pos: j, detail: word },
            ),
            Err(_) => {
                let mut v: Vec<char> = Vec::new();
                let mut k = j;
                while k < s.len()
                    invariant
                        j <= k <= s@.len(),
                        v@ == s@.subrange(j as int, k as int),
                        run_end(s@, k as int, false) == run_end(s@, j as int, false),
                        run_end(s@, j as int, false) >= s@.len(),
                    decreases s@.len() - k,
                {
                    proof {
                        lemma_run_end(s@, k + 1, false);
                    }
                    v.push(s[k]);
                    k = k + 1;
                    assert(v@ =~= s@.subrange(j as int, k as int));
                }
                proof {
                    lemma_run_end(s@, j as int, false);
                }
                Err(ParseError { kind: ErrorKind::UnexpectedToken, pos: j, detail: string_of(&v) })
            },
        },
    }
}

/// The entries of a bibliography source. At least one entry is required, and
/// the whole source must consist of entries and whitespace; the first
/// structural error fails the whole parse.
pub fn parse(src: &str) -> (r: Result<Vec<BibEntry>, ParseError>)
    ensures
        match (r, bibliography(src@)) {
            (Ok(v), Ok(es)) => entry_views(v@) == es,
            (Err(f), Err(f2)) => f@ == f2,
            _ => false,
        },
{
    let s = chars_of(src);
    let first = skip_whitespace(&s, 0);
    if first >= s.len() {
        return Err(eof_error(s.len()));
    }
    let mut acc: Vec<BibEntry> = Vec::new();
    assert(entry_views(acc@) =~= Seq::<Entry>::empty());
    let mut i: usize = 0;
    loop
        invariant
            i <= s@.len(),
            s@ == src@,
            skip_ws(s@, 0) < s@.len(),
            entries(s@, i as int, entry_views(acc@)) == bibliography(src@),
        decreases s@.len() - i,
    {
        let j = skip_whitespace(&s, i);
        proof {
            lemma_skip_ws(s@, i as int);
        }
        if j >= s.len() {
            return Ok(acc);
        }
        proof {
            lemma_entry(s@, j as int);
        }
        match read_entry(&s, j) {
            Err(f) => {
                return Err(f);
            },
            Ok((b, k)) => {
                let ghost before = entry_views(acc@);
                acc.push(b);
                assert(entry_views(acc@) =~= before.push(b@));
                i = k;
            },
        }
    }
}

} // verus!
