//! General properties of the two parsers, stated over their specifications.
use vstd::prelude::*;

use crate::bib::{
    entry, eq_ignoring_case, make_entry, Entry, has_name, header, headers, keyword, matches_ic, pubtype_at, unbraced,
    value, PubType,
};
use crate::cites::{
    block_end, cite_command, ignore_block, ignore_word, key_list_start, matches_at, scan, texts,
};
use crate::error::{failure, ErrorKind, Failure, ParseError};
use crate::text::{expect, find_char, is_ws, key_char, lemma_skip_ws, run_end, skip_ws};

verus! {

proof fn lemma_skip_ws_stops(s: Seq<char>, i: int, p: int)
    requires
        0 <= i <= p < s.len(),
        forall|k: int| i <= k < p ==> is_ws(s[k]),
        !is_ws(s[p]),
    ensures
        skip_ws(s, i) == p,
    decreases p - i,
{
    if i < p {
        lemma_skip_ws_stops(s, i + 1, p);
    }
}

proof fn lemma_find_char_stops(s: Seq<char>, i: int, p: int, x: char)
    requires
        0 <= i <= p < s.len(),
        forall|k: int| i <= k < p ==> s[k] != x,
        s[p] == x,
    ensures
        find_char(s, i, x) == p,
    decreases p - i,
{
    if i < p {
        lemma_find_char_stops(s, i + 1, p, x);
    }
}

proof fn lemma_skip_ws_agree(s1: Seq<char>, s2: Seq<char>, i: int)
    requires
        0 <= i,
        s1.len() == s2.len(),
        forall|k: int| i <= k < s1.len() ==> s1[k] == s2[k],
    ensures
        skip_ws(s1, i) == skip_ws(s2, i),
    decreases s1.len() - i,
{
    if i < s1.len() && is_ws(s1[i]) {
        lemma_skip_ws_agree(s1, s2, i + 1);
    }
}

/// A field value reads the same whether it is delimited by quotes or by
/// braces: where the content holds no `"` and no `}`, both forms give the
/// content without its braces, and continue at the same position.
pub proof fn lemma_quotes_and_braces_agree(pre: Seq<char>, c: Seq<char>, post: Seq<char>, i: int)
    requires
        0 <= i <= pre.len(),
        forall|k: int| i <= k < pre.len() ==> is_ws(pre[k]),
        forall|k: int| 0 <= k < c.len() ==> c[k] != '"' && c[k] != '}',
    ensures
        value(pre + seq!['"'] + c + seq!['"'] + post, i) == value(
            pre + seq!['{'] + c + seq!['}'] + post,
            i,
        ),
        value(pre + seq!['"'] + c + seq!['"'] + post, i) matches Ok((v, _)) && v == unbraced(c),
{
    let s1 = pre + seq!['"'] + c + seq!['"'] + post;
    let s2 = pre + seq!['{'] + c + seq!['}'] + post;
    let p = pre.len() as int;
    let e = p + 1 + c.len();
    assert(s1[p] == '"');
    assert(s2[p] == '{');
    assert forall|k: int| i <= k < p implies is_ws(s1[k]) && is_ws(s2[k]) by {
        assert(s1[k] == pre[k]);
        assert(s2[k] == pre[k]);
    }
    lemma_skip_ws_stops(s1, i, p);
    lemma_skip_ws_stops(s2, i, p);
    assert forall|k: int| p + 1 <= k < e implies s1[k] != '"' && s2[k] != '}' by {
        assert(s1[k] == c[k - p - 1]);
        assert(s2[k] == c[k - p - 1]);
    }
    assert(s1[e] == '"');
    assert(s2[e] == '}');
    lemma_find_char_stops(s1, p + 1, e, '"');
    lemma_find_char_stops(s2, p + 1, e, '}');
    assert(s1.subrange(p + 1, e) =~= c);
    assert(s2.subrange(p + 1, e) =~= c);
    assert forall|k: int| e + 1 <= k < s1.len() implies s1[k] == s2[k] by {
        assert(s1[k] == post[k - e - 1]);
        assert(s2[k] == post[k - e - 1]);
    }
    lemma_skip_ws_agree(s1, s2, e + 1);
}

proof fn lemma_run_end_stops(s: Seq<char>, i: int, p: int, ext: bool)
    requires
        0 <= i <= p < s.len(),
        forall|k: int| i <= k < p ==> key_char(s[k], ext),
        !key_char(s[p], ext),
    ensures
        run_end(s, i, ext) == p,
    decreases p - i,
{
    if i < p {
        lemma_run_end_stops(s, i + 1, p, ext);
    }
}

/// A field `name=value`, its value in quotes or in braces.
pub open spec fn field_text(f: (Seq<char>, Seq<char>), braced: bool) -> Seq<char> {
    f.0 + seq!['='] + if braced {
        seq!['{'] + f.1 + seq!['}']
    } else {
        seq!['"'] + f.1 + seq!['"']
    }
}

/// Fields separated by commas.
pub open spec fn fields_text(fs: Seq<(Seq<char>, Seq<char>)>, braced: bool) -> Seq<char>
    decreases fs.len(),
{
    if fs.len() == 0 {
        Seq::empty()
    } else if fs.len() == 1 {
        field_text(fs[0], braced)
    } else {
        field_text(fs[0], braced) + seq![','] + fields_text(fs.drop_first(), braced)
    }
}

/// An entry `@type{key,name=value,...}` with every value in quotes or every
/// value in braces.
pub open spec fn entry_text(
    t: PubType,
    key: Seq<char>,
    fs: Seq<(Seq<char>, Seq<char>)>,
    braced: bool,
) -> Seq<char> {
    seq!['@'] + keyword(t) + seq!['{'] + key + seq![','] + fields_text(fs, braced) + seq!['}']
}

/// A field whose name is a field name and whose value holds neither `"`
/// nor `}`, so that either delimiter can enclose it.
pub open spec fn plain_field(f: (Seq<char>, Seq<char>)) -> bool {
    &&& forall|k: int| 0 <= k < f.0.len() ==> key_char(#[trigger] f.0[k], false)
    &&& forall|k: int| 0 <= k < f.1.len() ==> #[trigger] f.1[k] != '"' && f.1[k] != '}'
}

proof fn lemma_fields_text_len(fs: Seq<(Seq<char>, Seq<char>)>)
    ensures
        fields_text(fs, false).len() == fields_text(fs, true).len(),
    decreases fs.len(),
{
    if fs.len() > 1 {
        lemma_fields_text_len(fs.drop_first());
    }
}

proof fn lemma_field_reads(s: Seq<char>, q: int, f: (Seq<char>, Seq<char>), braced: bool)
    requires
        0 <= q,
        q + field_text(f, braced).len() < s.len(),
        s.subrange(q, q + field_text(f, braced).len()) == field_text(f, braced),
        s[q + field_text(f, braced).len()] == ',' || s[q + field_text(f, braced).len()] == '}',
        plain_field(f),
    ensures
        header(s, q) == Ok::<((Seq<char>, Seq<char>), int), Failure>(
            ((f.0, unbraced(f.1)), q + field_text(f, braced).len()),
        ),
{
    let ft = field_text(f, braced);
    let n = f.0.len() as int;
    let c = f.1;
    let p = q + n + 1;
    let e = p + 1 + c.len();
    let (open, close) = if braced {
        ('{', '}')
    } else {
        ('"', '"')
    };
    assert forall|k: int| 0 <= k < ft.len() implies s[q + k] == ft[k] by {
        assert(s.subrange(q, q + ft.len())[k] == s[q + k]);
    }
    assert forall|k: int| 0 <= k < n implies s[q + k] == f.0[k] by {
        assert(ft[k] == f.0[k]);
    }
    assert(s[q + n] == '=') by {
        assert(ft[n] == '=');
    }
    assert(s[p] == open) by {
        assert(ft[n + 1] == open);
    }
    assert forall|m: int| 0 <= m < c.len() implies s[p + 1 + m] == c[m] by {
        assert(ft[n + 2 + m] == c[m]);
        assert(s[q + (n + 2 + m)] == ft[n + 2 + m]);
    }
    assert(s[e] == close) by {
        assert(ft[n + 2 + c.len()] == close);
        assert(s[q + (n + 2 + c.len())] == ft[n + 2 + c.len()]);
    }
    if n > 0 {
        assert(key_char(f.0[0], false));
        assert(s[q] == f.0[0]);
    }
    assert(!is_ws(s[q]));
    assert(skip_ws(s, q) == q);
    assert forall|k: int| q <= k < q + n implies key_char(s[k], false) by {
        assert(s[q + (k - q)] == f.0[k - q]);
        assert(key_char(f.0[k - q], false));
    }
    lemma_run_end_stops(s, q, q + n, false);
    assert(s.subrange(q, q + n) =~= f.0);
    assert(skip_ws(s, q + n) == q + n);
    assert(skip_ws(s, p) == p);
    assert forall|k: int| p + 1 <= k < e implies s[k] != close by {
        assert(s[p + 1 + (k - p - 1)] == c[k - p - 1]);
    }
    lemma_find_char_stops(s, p + 1, e, close);
    assert(s.subrange(p + 1, e) =~= c);
    assert(skip_ws(s, e + 1) == e + 1);
}

proof fn lemma_fields_split(s: Seq<char>, q: int, fs: Seq<(Seq<char>, Seq<char>)>, braced: bool)
    requires
        0 <= q,
        fs.len() > 1,
        q + fields_text(fs, braced).len() <= s.len(),
        s.subrange(q, q + fields_text(fs, braced).len()) == fields_text(fs, braced),
    ensures
        ({
            let lf = field_text(fs[0], braced).len() as int;
            let l = fields_text(fs, braced).len() as int;
            &&& l == lf + 1 + fields_text(fs.drop_first(), braced).len()
            &&& s.subrange(q, q + lf) == field_text(fs[0], braced)
            &&& s[q + lf] == ','
            &&& s.subrange(q + lf + 1, q + l) == fields_text(fs.drop_first(), braced)
        }),
{
    let f = fs[0];
    let rest = fs.drop_first();
    let lf = field_text(f, braced).len() as int;
    let l = fields_text(fs, braced).len() as int;
    let lr = fields_text(rest, braced).len() as int;
    let tx = fields_text(fs, braced);
    assert(l == lf + 1 + lr);
    assert(s.subrange(q, q + lf) =~= field_text(f, braced)) by {
        assert forall|k: int| 0 <= k < lf implies s.subrange(q, q + lf)[k] == field_text(
            f,
            braced,
        )[k] by {
            assert(s.subrange(q, q + l)[k] == tx[k]);
        }
    }
    assert(s[q + lf] == ',') by {
        assert(s.subrange(q, q + l)[lf] == tx[lf]);
    }
    assert(s.subrange(q + lf + 1, q + l) =~= fields_text(rest, braced)) by {
        assert forall|k: int| 0 <= k < lr implies s.subrange(q + lf + 1, q + l)[k] == fields_text(
            rest,
            braced,
        )[k] by {
            assert(s.subrange(q, q + l)[lf + 1 + k] == tx[lf + 1 + k]);
        }
    }
}

proof fn lemma_fields_agree(
    s1: Seq<char>,
    s2: Seq<char>,
    q: int,
    fs: Seq<(Seq<char>, Seq<char>)>,
    acc: Seq<(Seq<char>, Seq<char>)>,
)
    requires
        0 <= q,
        s1.len() == s2.len(),
        fs.len() >= 1,
        q + fields_text(fs, false).len() < s1.len(),
        s1.subrange(q, q + fields_text(fs, false).len()) == fields_text(fs, false),
        s2.subrange(q, q + fields_text(fs, false).len()) == fields_text(fs, true),
        s1[q + fields_text(fs, false).len()] == '}',
        s2[q + fields_text(fs, false).len()] == '}',
        forall|m: int| 0 <= m < fs.len() ==> plain_field(#[trigger] fs[m]),
    ensures
        headers(s1, q, acc) == headers(s2, q, acc),
        headers(s1, q, acc) matches Ok((_, h)) ==> h == q + fields_text(fs, false).len(),
    decreases fs.len(),
{
    lemma_fields_text_len(fs);
    let l = fields_text(fs, false).len() as int;
    let f = fs[0];
    let lf = field_text(f, false).len() as int;
    assert(field_text(f, true).len() == lf);
    assert(plain_field(fs[0]));
    if fs.len() == 1 {
        lemma_field_reads(s1, q, f, false);
        lemma_field_reads(s2, q, f, true);
        assert(skip_ws(s1, q + lf) == q + lf);
        assert(skip_ws(s2, q + lf) == q + lf);
    } else {
        let rest = fs.drop_first();
        lemma_fields_text_len(rest);
        let lr = fields_text(rest, false).len() as int;
        assert(l == lf + 1 + lr);
        lemma_fields_split(s1, q, fs, false);
        lemma_fields_split(s2, q, fs, true);
        lemma_field_reads(s1, q, f, false);
        lemma_field_reads(s2, q, f, true);
        assert(skip_ws(s1, q + lf) == q + lf);
        assert(skip_ws(s2, q + lf) == q + lf);
        assert forall|m: int| 0 <= m < rest.len() implies plain_field(#[trigger] rest[m]) by {
            assert(rest[m] == fs[m + 1]);
        }
        let h = (f.0, unbraced(f.1));
        lemma_fields_agree(s1, s2, q + lf + 1, rest, acc.push(h));
    }
}

proof fn lemma_not_at(s: Seq<char>, i: int, w: Seq<char>, k: int)
    requires
        0 <= k < w.len(),
        !eq_ignoring_case(s[i + k], w[k]),
    ensures
        !matches_ic(s, i, w),
{
}

proof fn lemma_pubtype_found(s: Seq<char>, t: PubType)
    requires
        1 + keyword(t).len() <= s.len(),
        s.subrange(1, 1 + keyword(t).len() as int) == keyword(t),
    ensures
        pubtype_at(s, 1) == Some(t),
{
    let w = keyword(t);
    assert forall|k: int| 0 <= k < w.len() implies eq_ignoring_case(#[trigger] s[1 + k], w[k]) by {
        assert(s.subrange(1, 1 + w.len() as int)[k] == s[1 + k]);
    }
    assert(s[1] == w[0]) by {
        assert(s.subrange(1, 1 + w.len() as int)[0] == s[1]);
    }
    match t {
        PubType::Book => {},
        PubType::Article => {
            lemma_not_at(s, 1, keyword(PubType::Book), 0);
        },
        PubType::Inproc => {
            lemma_not_at(s, 1, keyword(PubType::Book), 0);
            lemma_not_at(s, 1, keyword(PubType::Article), 0);
        },
        PubType::Incol => {
            assert(s[3] == w[2]) by {
                assert(s.subrange(1, 1 + w.len() as int)[2] == s[3]);
            }
            lemma_not_at(s, 1, keyword(PubType::Book), 0);
            lemma_not_at(s, 1, keyword(PubType::Article), 0);
            lemma_not_at(s, 1, keyword(PubType::Inproc), 2);
        },
        PubType::Misc => {
            lemma_not_at(s, 1, keyword(PubType::Book), 0);
            lemma_not_at(s, 1, keyword(PubType::Article), 0);
            lemma_not_at(s, 1, keyword(PubType::Inproc), 0);
            lemma_not_at(s, 1, keyword(PubType::Incol), 0);
        },
    }
}

/// What an entry is once its fields start at `q`.
spec fn entry_from_fields(s: Seq<char>, q: int, t: PubType, key: Seq<char>) -> Result<
    (Entry, int),
    Failure,
> {
    match headers(s, q, Seq::empty()) {
        Err(f) => Err(f),
        Ok((fs, h)) => match expect(s, h, '}') {
            Err(f) => Err(f),
            Ok(z) => Ok((make_entry(t, key, fs), z)),
        },
    }
}

proof fn lemma_entry_prefix(t: PubType, key: Seq<char>, fs: Seq<(Seq<char>, Seq<char>)>, braced: bool)
    requires
        forall|k: int| 0 <= k < key.len() ==> key_char(#[trigger] key[k], true),
    ensures
        entry(entry_text(t, key, fs, braced), 0) == entry_from_fields(
            entry_text(t, key, fs, braced),
            3 + keyword(t).len() as int + key.len() as int,
            t,
            key,
        ),
{
    let s = entry_text(t, key, fs, braced);
    let w = keyword(t);
    let kl = key.len() as int;
    let b: int = 1 + w.len() as int;
    let c: int = b + 1;
    assert(s.subrange(1, b) =~= w);
    lemma_pubtype_found(s, t);
    assert(skip_ws(s, 0) == 0);
    assert(skip_ws(s, b) == b);
    if kl > 0 {
        assert(key_char(key[0], true));
    }
    assert(skip_ws(s, c) == c);
    assert forall|k: int| c <= k < c + kl implies key_char(s[k], true) by {
        assert(s[k] == key[k - c]);
    }
    lemma_run_end_stops(s, c, c + kl, true);
    assert(s.subrange(c, c + kl) =~= key);
    assert(skip_ws(s, c + kl) == c + kl);
}

/// The choice of delimiter is not observable: an entry whose values are
/// all in quotes parses to what the same entry with all its values in
/// braces parses to, whatever its type, citekey and fields (each value
/// free of `"` and `}`), and whether it succeeds or fails.
pub proof fn lemma_delimiters_unobservable(
    t: PubType,
    key: Seq<char>,
    fs: Seq<(Seq<char>, Seq<char>)>,
)
    requires
        forall|k: int| 0 <= k < key.len() ==> key_char(#[trigger] key[k], true),
        fs.len() >= 1,
        forall|m: int| 0 <= m < fs.len() ==> plain_field(#[trigger] fs[m]),
    ensures
        entry(entry_text(t, key, fs, false), 0) == entry(entry_text(t, key, fs, true), 0),
{
    let s1 = entry_text(t, key, fs, false);
    let s2 = entry_text(t, key, fs, true);
    lemma_fields_text_len(fs);
    let l = fields_text(fs, false).len() as int;
    let q: int = 3 + keyword(t).len() as int + key.len() as int;
    assert(s1.subrange(q, q + l) =~= fields_text(fs, false));
    assert(s2.subrange(q, q + l) =~= fields_text(fs, true));
    assert(s1[q + l] == '}');
    assert(s2[q + l] == '}');
    lemma_entry_prefix(t, key, fs, false);
    lemma_entry_prefix(t, key, fs, true);
    lemma_fields_agree(s1, s2, q, fs, Seq::empty());
}

/// The fields with their values as read: without braces.
pub open spec fn read_fields(fs: Seq<(Seq<char>, Seq<char>)>) -> Seq<(Seq<char>, Seq<char>)> {
    fs.map_values(|f: (Seq<char>, Seq<char>)| (f.0, unbraced(f.1)))
}

proof fn lemma_fields_read(
    s: Seq<char>,
    q: int,
    fs: Seq<(Seq<char>, Seq<char>)>,
    acc: Seq<(Seq<char>, Seq<char>)>,
    braced: bool,
)
    requires
        0 <= q,
        fs.len() >= 1,
        q + fields_text(fs, braced).len() < s.len(),
        s.subrange(q, q + fields_text(fs, braced).len()) == fields_text(fs, braced),
        s[q + fields_text(fs, braced).len()] == '}',
        forall|m: int| 0 <= m < fs.len() ==> plain_field(#[trigger] fs[m]),
        distinct_names(fs),
        forall|m: int| 0 <= m < fs.len() ==> !has_name(acc, #[trigger] fs[m].0),
    ensures
        headers(s, q, acc) == Ok::<(Seq<(Seq<char>, Seq<char>)>, int), Failure>(
            (acc + read_fields(fs), q + fields_text(fs, braced).len()),
        ),
    decreases fs.len(),
{
    let f = fs[0];
    let lf = field_text(f, braced).len() as int;
    let h = (f.0, unbraced(f.1));
    assert(plain_field(fs[0]));
    assert(!has_name(acc, fs[0].0));
    if fs.len() == 1 {
        lemma_field_reads(s, q, f, braced);
        assert(skip_ws(s, q + lf) == q + lf);
        assert(acc.push(h) =~= acc + read_fields(fs));
    } else {
        let rest = fs.drop_first();
        lemma_fields_split(s, q, fs, braced);
        lemma_field_reads(s, q, f, braced);
        assert(skip_ws(s, q + lf) == q + lf);
        assert forall|m: int| 0 <= m < rest.len() implies plain_field(#[trigger] rest[m]) by {
            assert(rest[m] == fs[m + 1]);
        }
        assert forall|x: int, y: int| 0 <= x < y < rest.len() implies (#[trigger] rest[x]).0
            != (#[trigger] rest[y]).0 by {
            assert(rest[x] == fs[x + 1] && rest[y] == fs[y + 1]);
        }
        assert forall|m: int| 0 <= m < rest.len() implies !has_name(
            acc.push(h),
            #[trigger] rest[m].0,
        ) by {
            assert(rest[m] == fs[m + 1]);
            assert(fs[0].0 != fs[m + 1].0);
            assert(!has_name(acc, fs[m + 1].0));
            if has_name(acc.push(h), rest[m].0) {
                let n = choose|n: int|
                    0 <= n < acc.push(h).len() && (#[trigger] acc.push(h)[n]).0 == rest[m].0;
                if n < acc.len() {
                    assert(acc[n] == acc.push(h)[n]);
                }
            }
        }
        lemma_fields_read(s, q + lf + 1, rest, acc.push(h), braced);
        assert(acc.push(h) + read_fields(rest) =~= acc + read_fields(fs));
    }
}

/// An entry whose field names are distinct is read whatever those names
/// are: it succeeds, with the values of `author`, `title` and `date` where
/// they are given, empty ones where not, and the other fields dropped.
pub proof fn lemma_distinct_fields_succeed(
    t: PubType,
    key: Seq<char>,
    fs: Seq<(Seq<char>, Seq<char>)>,
    braced: bool,
)
    requires
        forall|k: int| 0 <= k < key.len() ==> key_char(#[trigger] key[k], true),
        fs.len() >= 1,
        forall|m: int| 0 <= m < fs.len() ==> plain_field(#[trigger] fs[m]),
        distinct_names(fs),
    ensures
        entry(entry_text(t, key, fs, braced), 0) == Ok::<(Entry, int), Failure>(
            (
                make_entry(t, key, read_fields(fs)),
                entry_text(t, key, fs, braced).len() as int,
            ),
        ),
{
    let s = entry_text(t, key, fs, braced);
    let l = fields_text(fs, braced).len() as int;
    let q: int = 3 + keyword(t).len() as int + key.len() as int;
    assert(s.subrange(q, q + l) =~= fields_text(fs, braced));
    assert(s[q + l] == '}');
    lemma_entry_prefix(t, key, fs, braced);
    assert forall|m: int| 0 <= m < fs.len() implies !has_name(
        Seq::<(Seq<char>, Seq<char>)>::empty(),
        #[trigger] fs[m].0,
    ) by {}
    lemma_fields_read(s, q, fs, Seq::empty(), braced);
    assert(Seq::<(Seq<char>, Seq<char>)>::empty() + read_fields(fs) =~= read_fields(fs));
}

/// The names of the fields that a successful parse collects are distinct.
pub open spec fn distinct_names(fs: Seq<(Seq<char>, Seq<char>)>) -> bool {
    forall|a: int, b: int| 0 <= a < b < fs.len() ==> (#[trigger] fs[a]).0 != (#[trigger] fs[b]).0
}

/// Field names within an entry are unique: a field whose name was already
/// given fails the parse with a duplicate-field error that names it, and a
/// successful parse of the fields keeps every field, each name once.
pub proof fn lemma_field_names_unique(s: Seq<char>, i: int, fs: Seq<(Seq<char>, Seq<char>)>)
    requires
        0 <= i <= s.len(),
        distinct_names(fs),
    ensures
        match header(s, i) {
            Ok((h, j)) => has_name(fs, h.0) ==> headers(s, i, fs) == Err::<
                (Seq<(Seq<char>, Seq<char>)>, int),
                Failure,
            >(failure(ErrorKind::DuplicateField, j, h.0)),
            Err(_) => true,
        },
        headers(s, i, fs) matches Ok((hs, _)) ==> distinct_names(hs) && fs.len() < hs.len()
            && hs.subrange(0, fs.len() as int) == fs,
    decreases s.len() - i,
{
    crate::bib::lemma_header(s, i);
    if let Ok((h, j)) = header(s, i) {
        if !has_name(fs, h.0) {
            let fs2 = fs.push(h);
            assert forall|a: int, b: int| 0 <= a < b < fs2.len() implies (#[trigger] fs2[a]).0
                != (#[trigger] fs2[b]).0 by {
                if b == fs.len() {
                    if fs2[a].0 == fs2[b].0 {
                        assert(fs[a] == fs2[a]);
                        assert(has_name(fs, h.0));
                    }
                } else {
                    assert(fs[a] == fs2[a] && fs[b] == fs2[b]);
                }
            }
            lemma_skip_ws(s, j);
            let k = skip_ws(s, j);
            if k < s.len() && s[k] == ',' {
                lemma_field_names_unique(s, k + 1, fs2);
                if let Ok((hs, _)) = headers(s, k + 1, fs2) {
                    assert(hs.subrange(0, fs.len() as int) =~= hs.subrange(
                        0,
                        fs2.len() as int,
                    ).subrange(0, fs.len() as int));
                    assert(fs2.subrange(0, fs.len() as int) =~= fs);
                }
            } else {
                assert(fs2.subrange(0, fs.len() as int) =~= fs);
            }
        }
    }
}

/// Whether a text holds no square bracket.
pub open spec fn no_brackets(a: Seq<char>) -> bool {
    forall|k: int| 0 <= k < a.len() ==> a[k] != '[' && a[k] != ']'
}

/// Optional arguments of a citation: each content in square brackets, one
/// after the other.
pub open spec fn bracketed(args: Seq<Seq<char>>) -> Seq<char>
    decreases args.len(),
{
    if args.len() == 0 {
        Seq::empty()
    } else {
        seq!['['] + args[0] + seq![']'] + bracketed(args.drop_first())
    }
}

proof fn lemma_skip_content(s: Seq<char>, q: int, e: int, nest: int)
    requires
        0 <= q <= e <= s.len(),
        nest > 0,
        no_brackets(s.subrange(q, e)),
    ensures
        key_list_start(s, q, nest) == key_list_start(s, e, nest),
    decreases e - q,
{
    if q < e {
        assert(s.subrange(q, e)[0] == s[q]);
        assert(s.subrange(q + 1, e) =~= s.subrange(q, e).drop_first());
        lemma_skip_content(s, q + 1, e, nest);
    }
}

proof fn lemma_skip_arguments(s: Seq<char>, q: int, args: Seq<Seq<char>>)
    requires
        0 <= q,
        q + bracketed(args).len() <= s.len(),
        s.subrange(q, q + bracketed(args).len()) == bracketed(args),
        forall|k: int| 0 <= k < args.len() ==> no_brackets(#[trigger] args[k]),
    ensures
        key_list_start(s, q, 0) == key_list_start(s, q + bracketed(args).len(), 0),
    decreases args.len(),
{
    if args.len() > 0 {
        let a = args[0];
        let b = bracketed(args);
        let rest = bracketed(args.drop_first());
        let e = q + 1 + a.len();
        assert(b[0] == '[');
        assert(s[q] == '[');
        assert(s.subrange(q + 1, e) =~= a) by {
            assert forall|m: int| 0 <= m < a.len() implies s.subrange(q + 1, e)[m] == a[m] by {
                assert(s[q + 1 + m] == b[1 + m]);
            }
        }
        assert(no_brackets(args[0]));
        lemma_skip_content(s, q + 1, e, 1);
        assert(b[1 + a.len() as int] == ']');
        assert(s[e] == ']');
        assert(s.subrange(e + 1, q + b.len()) =~= rest) by {
            assert forall|m: int| 0 <= m < rest.len() implies s.subrange(e + 1, q + b.len())[m]
                == rest[m] by {
                assert(s[e + 1 + m] == b[2 + a.len() as int + m]);
            }
        }
        assert forall|k: int| 0 <= k < args.drop_first().len() implies no_brackets(
            #[trigger] args.drop_first()[k],
        ) by {
            assert(args.drop_first()[k] == args[k + 1]);
        }
        lemma_skip_arguments(s, e + 1, args.drop_first());
    }
}

/// The optional arguments of a citation do not change what it extracts:
/// after `\cite`, any number of bracketed arguments without brackets inside
/// (braces are allowed) followed by the key list read as the key list alone.
pub proof fn lemma_optional_arguments_ignored(
    s: Seq<char>,
    i: int,
    args: Seq<Seq<char>>,
    acc: Seq<Seq<char>>,
)
    requires
        0 <= i,
        i + bracketed(args).len() < s.len(),
        s.subrange(i, i + bracketed(args).len()) == bracketed(args),
        forall|k: int| 0 <= k < args.len() ==> no_brackets(#[trigger] args[k]),
        s[i + bracketed(args).len()] == '{',
    ensures
        cite_command(s, i, acc) == cite_command(s, i + bracketed(args).len(), acc),
{
    let j = i + bracketed(args).len();
    if args.len() > 0 {
        assert(s[i] == bracketed(args)[0]);
    }
    assert(skip_ws(s, i) == i);
    assert(skip_ws(s, j) == j);
    lemma_skip_arguments(s, i, args);
}

/// The difference between the opening and the closing braces of a text.
pub open spec fn brace_depth(t: Seq<char>) -> int
    decreases t.len(),
{
    if t.len() == 0 {
        0
    } else {
        brace_depth(t.drop_last()) + if t.last() == '{' {
            1int
        } else if t.last() == '}' {
            -1int
        } else {
            0int
        }
    }
}

/// Whether every closing brace of a text matches an opening one before it,
/// and every opening one is closed.
pub open spec fn balanced(t: Seq<char>) -> bool {
    brace_depth(t) == 0 && forall|m: int|
        0 <= m <= t.len() ==> brace_depth(#[trigger] t.subrange(0, m)) >= 0
}

proof fn lemma_block_balanced(s: Seq<char>, b: int, q: int, k: int)
    requires
        0 <= b <= q <= k < s.len(),
        balanced(s.subrange(b, k)),
        s[k] == '}',
    ensures
        block_end(s, q, (1 + brace_depth(s.subrange(b, q))) as nat) == Ok::<int, Failure>(k + 1),
    decreases k - q,
{
    let t = s.subrange(b, k);
    assert(t.subrange(0, q - b) =~= s.subrange(b, q));
    assert(brace_depth(t.subrange(0, q - b)) >= 0);
    if q == k {
        assert(s.subrange(b, q) =~= t);
    } else {
        assert(t.subrange(0, q + 1 - b) =~= s.subrange(b, q + 1));
        assert(brace_depth(t.subrange(0, q + 1 - b)) >= 0);
        assert(s.subrange(b, q + 1).drop_last() =~= s.subrange(b, q));
        lemma_block_balanced(s, b, q + 1, k);
    }
}

/// Nothing inside an ignore block is cited: scanning from `\ignore{`,
/// whatever balanced text with any nesting of braces stands inside, gives
/// the keys that scanning from after its closing brace gives.
pub proof fn lemma_ignored_text_cites_nothing(s: Seq<char>, i: int, k: int, acc: Seq<Seq<char>>)
    requires
        0 <= i,
        i + 8 <= k < s.len(),
        s[i] == '\\',
        matches_at(s, i + 1, ignore_word()),
        s[i + 7] == '{',
        balanced(s.subrange(i + 8, k)),
        s[k] == '}',
    ensures
        scan(s, i, acc) == scan(s, k + 1, acc),
{
    assert(skip_ws(s, i + 7) == i + 7);
    assert(s.subrange(i + 8, i + 8) =~= Seq::<char>::empty());
    lemma_block_balanced(s, i + 8, i + 8, k);
    assert(ignore_block(s, i + 7) == Ok::<int, Failure>(k + 1));
}

/// Scanning is deterministic: two scans of the same text give the same
/// keys in the same order, or the same failure.
pub proof fn lemma_rescan_agrees(
    src: Seq<char>,
    r1: Result<Vec<String>, ParseError>,
    r2: Result<Vec<String>, ParseError>,
)
    requires
        crate::cites::scan_outcome(src, r1),
        crate::cites::scan_outcome(src, r2),
    ensures
        match (r1, r2) {
            (Ok(a), Ok(b)) => texts(a@) == texts(b@),
            (Err(a), Err(b)) => a@ == b@,
            _ => false,
        },
{
}

} // verus!
