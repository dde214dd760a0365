//! The tally of citations per author and title, and its report.
use vstd::prelude::*;

use crate::bib::{BibEntry, Entry};

verus! {

/// The bibliography by citekey: the first entry of each key, in the order
/// of the source.
pub struct BibMap {
    pub entries: Vec<BibEntry>,
}

/// What the entries of a vector hold.
pub open spec fn entries_of(v: Seq<BibEntry>) -> Seq<Entry> {
    v.map_values(|e: BibEntry| e@)
}

impl View for BibMap {
    type V = Seq<Entry>;

    open spec fn view(&self) -> Seq<Entry> {
        entries_of(self.entries@)
    }
}

/// Whether an entry with that key is among `es`.
pub open spec fn has_key(es: Seq<Entry>, key: Seq<char>) -> bool {
    exists|m: int| 0 <= m < es.len() && (#[trigger] es[m]).key == key
}

/// The first entry of each key, in order.
pub open spec fn first_of_each_key(es: Seq<Entry>) -> Seq<Entry>
    decreases es.len(),
{
    if es.len() == 0 {
        Seq::empty()
    } else if has_key(es.drop_last(), es.last().key) {
        first_of_each_key(es.drop_last())
    } else {
        first_of_each_key(es.drop_last()).push(es.last())
    }
}

/// The first entry with that key.
pub open spec fn lookup(es: Seq<Entry>, key: Seq<char>) -> Option<Entry>
    decreases es.len(),
{
    if es.len() == 0 {
        None
    } else if es[0].key == key {
        Some(es[0])
    } else {
        lookup(es.drop_first(), key)
    }
}

/// Citation counts: one row for each author and title that was cited.
pub struct AuthorStats {
    pub rows: Vec<(String, String, u32)>,
}

/// The rows of a tally: author, title, count.
pub open spec fn rows_of(v: Seq<(String, String, u32)>) -> Seq<(Seq<char>, Seq<char>, u32)> {
    v.map_values(|r: (String, String, u32)| (r.0@, r.1@, r.2))
}

impl View for AuthorStats {
    type V = Seq<(Seq<char>, Seq<char>, u32)>;

    open spec fn view(&self) -> Seq<(Seq<char>, Seq<char>, u32)> {
        rows_of(self.rows@)
    }
}

/// Whether row `m` counts that author and title.
pub open spec fn row_is(rows: Seq<(Seq<char>, Seq<char>, u32)>, m: int, a: Seq<char>, t: Seq<char>) -> bool {
    0 <= m < rows.len() && rows[m].0 == a && rows[m].1 == t
}

/// Each author and title has at most one row.
pub open spec fn unique_rows(rows: Seq<(Seq<char>, Seq<char>, u32)>) -> bool {
    forall|m: int, n: int|
        0 <= m < n < rows.len() ==> !((#[trigger] rows[m]).0 == (#[trigger] rows[n]).0
            && rows[m].1 == rows[n].1)
}

/// The rows after one more citation of author `a` and title `t`: its count
/// goes up by one (staying at the largest `u32`), or a row with count one
/// is added at the end.
pub open spec fn tally(rows: Seq<(Seq<char>, Seq<char>, u32)>, a: Seq<char>, t: Seq<char>) -> Seq<
    (Seq<char>, Seq<char>, u32),
> {
    if exists|m: int| row_is(rows, m, a, t) {
        let m = choose|m: int| row_is(rows, m, a, t);
        let c = rows[m].2;
        rows.update(m, (a, t, if c < u32::MAX { (c + 1) as u32 } else { c }))
    } else {
        rows.push((a, t, 1u32))
    }
}

impl AuthorStats {
    /// A tally with no rows.
    pub fn new() -> (r: AuthorStats)
        ensures
            r@ == Seq::<(Seq<char>, Seq<char>, u32)>::empty(),
    {
        let r = AuthorStats { rows: Vec::new() };
        assert(r@ =~= Seq::<(Seq<char>, Seq<char>, u32)>::empty());
        r
    }
}

fn copy_entry(e: &BibEntry) -> (r: BibEntry)
    ensures
        r@ == e@,
{
    BibEntry {
        pubtype: e.pubtype,
        key: e.key.clone(),
        author: e.author.clone(),
        title: e.title.clone(),
        date: e.date.clone(),
    }
}

/// The entries of a bibliography by key; of entries that share a key, the
/// first is kept.
pub fn bib_to_map(works: Vec<BibEntry>) -> (r: BibMap)
    ensures
        r@ == first_of_each_key(entries_of(works@)),
{
    let ghost all = entries_of(works@);
    let mut kept: Vec<BibEntry> = Vec::new();
    let mut i: usize = 0;
    assert(all.subrange(0, 0) =~= Seq::<Entry>::empty());
    assert(entries_of(kept@) =~= Seq::<Entry>::empty());
    while i < works.len()
        invariant
            i <= works@.len(),
            all == entries_of(works@),
            entries_of(kept@) == first_of_each_key(all.subrange(0, i as int)),
            forall|k: Seq<char>|
                has_key(entries_of(kept@), k) <==> has_key(all.subrange(0, i as int), k),
        decreases works@.len() - i,
    {
        let ghost before = entries_of(kept@);
        let ghost prefix = all.subrange(0, i as int);
        let ghost next = all.subrange(0, i + 1);
        assert(next.drop_last() =~= prefix);
        assert(forall|k: Seq<char>| has_key(before, k) <==> has_key(prefix, k));
        let mut found = false;
        let mut j: usize = 0;
        while j < kept.len()
            invariant
                j <= kept@.len(),
                before == entries_of(kept@),
                i < works@.len(),
                all == entries_of(works@),
                found == exists|m: int| 0 <= m < j && (#[trigger] before[m]).key == all[i as int].key,
            decreases kept@.len() - j,
        {
            if kept[j].key == works[i].key {
                assert(before[j as int].key == all[i as int].key);
                found = true;
            }
            j = j + 1;
        }
        assert(found == has_key(before, all[i as int].key));
        if !found {
            kept.push(copy_entry(&works[i]));
            assert(entries_of(kept@) =~= before.push(all[i as int]));
            assert forall|k: Seq<char>|
                has_key(entries_of(kept@), k) <==> has_key(next, k) by {
                if has_key(next, k) {
                    let m = choose|m: int| 0 <= m < next.len() && (#[trigger] next[m]).key == k;
                    if m < i {
                        assert(prefix[m] == next[m]);
                        assert(has_key(prefix, k));
                        let n = choose|n: int| 0 <= n < before.len() && (#[trigger] before[n]).key == k;
                        assert(entries_of(kept@)[n] == before[n]);
                    } else {
                        assert(entries_of(kept@)[before.len() as int] == all[i as int]);
                    }
                }
                if has_key(entries_of(kept@), k) {
                    let n = choose|n: int|
                        0 <= n < entries_of(kept@).len() && (#[trigger] entries_of(kept@)[n]).key == k;
                    if n < before.len() {
                        assert(entries_of(kept@)[n] == before[n]);
                        assert(before[n].key == k);
                        assert(has_key(before, k));
                        assert(has_key(prefix, k));
                        let m = choose|m: int| 0 <= m < prefix.len() && (#[trigger] prefix[m]).key == k;
                        assert(next[m] == prefix[m]);
                    } else {
                        assert(next[i as int] == all[i as int]);
                    }
                }
            }
        } else {
            assert forall|k: Seq<char>| has_key(before, k) <==> has_key(next, k) by {
                if has_key(next, k) {
                    let m = choose|m: int| 0 <= m < next.len() && (#[trigger] next[m]).key == k;
                    if m < i {
                        assert(prefix[m] == next[m]);
                    }
                }
                if has_key(prefix, k) {
                    let m = choose|m: int| 0 <= m < prefix.len() && (#[trigger] prefix[m]).key == k;
                    assert(next[m] == prefix[m]);
                }
            }
        }
        i = i + 1;
    }
    assert(all.subrange(0, i as int) =~= all);
    BibMap { entries: kept }
}

/// Counts one citation of `citekey`: the row of the entry's author and title
/// goes up by one. A key that the bibliography lacks is an error, and leaves
/// the tally as it was.
pub fn count_up(citekey: &str, bib: &BibMap, authors: &mut AuthorStats) -> (r: Result<(), ()>)
    requires
        unique_rows(old(authors)@),
    ensures
        unique_rows(final(authors)@),
        match lookup(bib@, citekey@) {
            None => r is Err && final(authors)@ == old(authors)@,
            Some(e) => r is Ok && final(authors)@ == tally(old(authors)@, e.author, e.title),
        },
{
    let ghost es = bib@;
    let wanted = String::from_str(citekey);
    let mut i: usize = 0;
    let n = bib.entries.len();
    assert(es.subrange(0, es.len() as int) =~= es);
    while i < n
        invariant
            n == bib.entries@.len(),
            es == bib@,
            wanted@ == citekey@,
            i <= n,
            authors@ == old(authors)@,
            unique_rows(old(authors)@),
            lookup(es, citekey@) == lookup(es.subrange(i as int, es.len() as int), citekey@),
        decreases n - i,
    {
        let ghost rest = es.subrange(i as int, es.len() as int);
        assert(rest.drop_first() =~= es.subrange(i + 1, es.len() as int));
        assert(rest[0] == es[i as int]);
        if bib.entries[i].key == wanted {
            let e = &bib.entries[i];
            add_citation(authors, &e.author, &e.title);
            return Ok(());
        }
        i = i + 1;
    }
    Err(())
}

/// Adds one citation of author `a` and title `t` to the tally.
fn add_citation(authors: &mut AuthorStats, a: &String, t: &String)
    requires
        unique_rows(old(authors)@),
    ensures
        unique_rows(final(authors)@),
        final(authors)@ == tally(old(authors)@, a@, t@),
{
    let ghost rows = authors@;
    let mut m: usize = 0;
    while m < authors.rows.len()
        invariant
            m <= authors.rows@.len(),
            rows == authors@,
            rows == old(authors)@,
            unique_rows(rows),
            forall|k: int| 0 <= k < m ==> !row_is(rows, k, a@, t@),
        decreases authors.rows@.len() - m,
    {
        if authors.rows[m].0 == *a && authors.rows[m].1 == *t {
            assert(row_is(rows, m as int, a@, t@));
            let c = authors.rows[m].2;
            let c2 = if c < u32::MAX {
                c + 1
            } else {
                c
            };
            authors.rows.set(m, (a.clone(), t.clone(), c2));
            proof {
                let k = choose|k: int| row_is(rows, k, a@, t@);
                assert(row_is(rows, k, a@, t@));
                if k < m {
                    assert(!row_is(rows, k, a@, t@));
                } else if k > m {
                    assert(!(rows[m as int].0 == rows[k].0 && rows[m as int].1 == rows[k].1));
                }
                assert(k == m);
                assert(rows[m as int].2 == c);
                assert(authors@ =~= rows.update(m as int, (a@, t@, c2)));
                assert forall|x: int, y: int| 0 <= x < y < authors@.len() implies !((
                #[trigger] authors@[x]).0 == (#[trigger] authors@[y]).0 && authors@[x].1
                    == authors@[y].1) by {
                    assert(authors@[x].0 == rows[x].0 && authors@[x].1 == rows[x].1);
                    assert(authors@[y].0 == rows[y].0 && authors@[y].1 == rows[y].1);
                    assert(!(rows[x].0 == rows[y].0 && rows[x].1 == rows[y].1));
                }
            }
            return;
        }
        m = m + 1;
    }
    authors.rows.push((a.clone(), t.clone(), 1));
    proof {
        assert(authors@ =~= rows.push((a@, t@, 1u32)));
        assert forall|x: int, y: int| 0 <= x < y < authors@.len() implies !((
        #[trigger] authors@[x]).0 == (#[trigger] authors@[y]).0 && authors@[x].1
            == authors@[y].1) by {
            if y < rows.len() {
                assert(!(rows[x].0 == rows[y].0 && rows[x].1 == rows[y].1));
            } else {
                assert(!row_is(rows, x, a@, t@));
            }
        }
    }
}

/// The tally after counting each key in turn; keys that the bibliography
/// lacks count nothing.
pub open spec fn tally_all(
    rows: Seq<(Seq<char>, Seq<char>, u32)>,
    es: Seq<Entry>,
    keys: Seq<Seq<char>>,
) -> Seq<(Seq<char>, Seq<char>, u32)>
    decreases keys.len(),
{
    if keys.len() == 0 {
        rows
    } else {
        let r = tally_all(rows, es, keys.drop_last());
        match lookup(es, keys.last()) {
            Some(e) => tally(r, e.author, e.title),
            None => r,
        }
    }
}

/// The keys that the bibliography lacks, in order, one for each occurrence.
pub open spec fn unknown_keys(es: Seq<Entry>, keys: Seq<Seq<char>>) -> Seq<Seq<char>>
    decreases keys.len(),
{
    if keys.len() == 0 {
        Seq::empty()
    } else if lookup(es, keys.last()) is None {
        unknown_keys(es, keys.drop_last()).push(keys.last())
    } else {
        unknown_keys(es, keys.drop_last())
    }
}

/// Counts every citation of `keys`, in order, and returns the keys that the
/// bibliography lacks.
pub fn count_all(keys: &Vec<String>, bib: &BibMap, authors: &mut AuthorStats) -> (missing: Vec<
    String,
>)
    requires
        unique_rows(old(authors)@),
    ensures
        unique_rows(final(authors)@),
        final(authors)@ == tally_all(old(authors)@, bib@, crate::cites::texts(keys@)),
        crate::cites::texts(missing@) == unknown_keys(bib@, crate::cites::texts(keys@)),
{
    let ghost ks = crate::cites::texts(keys@);
    let mut missing: Vec<String> = Vec::new();
    let mut i: usize = 0;
    assert(ks.subrange(0, 0) =~= Seq::<Seq<char>>::empty());
    assert(crate::cites::texts(missing@) =~= Seq::<Seq<char>>::empty());
    while i < keys.len()
        invariant
            i <= keys@.len(),
            ks == crate::cites::texts(keys@),
            unique_rows(authors@),
            authors@ == tally_all(old(authors)@, bib@, ks.subrange(0, i as int)),
            crate::cites::texts(missing@) == unknown_keys(bib@, ks.subrange(0, i as int)),
        decreases keys@.len() - i,
    {
        let ghost next = ks.subrange(0, i + 1);
        assert(next.drop_last() =~= ks.subrange(0, i as int));
        assert(next.last() == keys@[i as int]@);
        let ghost before = crate::cites::texts(missing@);
        match count_up(keys[i].as_str(), bib, authors) {
            Ok(()) => {},
            Err(()) => {
                missing.push(keys[i].clone());
                assert(crate::cites::texts(missing@) =~= before.push(keys@[i as int]@));
            },
        }
        i = i + 1;
    }
    assert(ks.subrange(0, i as int) =~= ks);
    missing
}

/// How the report is written: JSON objects, one per line, optionally as
/// the elements of one array; or tab-separated values.
#[derive(Debug, Clone, Copy, PartialEq, Eq, Structural)]
pub enum Format {
    Json(bool),
    Tsv,
}

pub open spec fn digit_char(d: nat) -> char {
    if d == 0 {
        '0'
    } else if d == 1 {
        '1'
    } else if d == 2 {
        '2'
    } else if d == 3 {
        '3'
    } else if d == 4 {
        '4'
    } else if d == 5 {
        '5'
    } else if d == 6 {
        '6'
    } else if d == 7 {
        '7'
    } else if d == 8 {
        '8'
    } else {
        '9'
    }
}

/// The decimal digits of a number, without leading zeros.
pub open spec fn decimal(n: nat) -> Seq<char>
    decreases n,
{
    if n < 10 {
        seq![digit_char(n)]
    } else {
        decimal(n / 10).push(digit_char(n % 10))
    }
}

/// Relies on `u64`'s `Display`, through `ToString`: a number in decimal,
/// without sign or leading zeros.
#[verifier::external_body]
fn decimal_string(n: u64) -> (r: String)
    ensures
        r@ == decimal(n as nat),
{
    n.to_string()
}

/// The JSON string literal that serde_json writes for a string.
pub uninterp spec fn json_quoted(s: Seq<char>) -> Seq<char>;

/// Relies on serde_json's `Value::String` and its compact `Display`: the
/// string as a JSON string literal, quoted and escaped.
#[verifier::external_body]
fn json_string(s: &String) -> (r: String)
    ensures
        r@ == json_quoted(s@),
{
    serde_json::Value::String(s.clone()).to_string()
}

/// Row `i` of the tab-separated report: index, quoted author, quoted title, count.
pub open spec fn tsv_row(i: nat, r: (Seq<char>, Seq<char>, u32)) -> Seq<char> {
    decimal(i) + "\t\""@ + r.0 + "\"\t\""@ + r.1 + "\"\t"@ + decimal(r.2 as nat) + "\n"@
}

/// The tab-separated report, one line per row.
pub open spec fn tsv(rows: Seq<(Seq<char>, Seq<char>, u32)>) -> Seq<char>
    decreases rows.len(),
{
    if rows.len() == 0 {
        Seq::empty()
    } else {
        tsv(rows.drop_last()) + tsv_row((rows.len() - 1) as nat, rows.last())
    }
}

/// A JSON object of an author and a title, each already a JSON string
/// literal, and a count; its keys in the order author, count, title.
pub open spec fn json_object_text(author: Seq<char>, title: Seq<char>, count: u32) -> Seq<char> {
    "{\"author\":"@ + author + ",\"count\":"@ + decimal(count as nat) + ",\"title\":"@ + title
        + "}"@
}

/// A row as a JSON object.
pub open spec fn json_row(r: (Seq<char>, Seq<char>, u32)) -> Seq<char> {
    json_object_text(json_quoted(r.0), json_quoted(r.1), r.2)
}

/// The rows as JSON objects, with `sep` between each two.
pub open spec fn json_rows(rows: Seq<(Seq<char>, Seq<char>, u32)>, sep: Seq<char>) -> Seq<char>
    decreases rows.len(),
{
    if rows.len() == 0 {
        Seq::empty()
    } else if rows.len() == 1 {
        json_row(rows[0])
    } else {
        json_rows(rows.drop_last(), sep) + sep + json_row(rows.last())
    }
}

/// The report of a tally in a format.
pub open spec fn report(rows: Seq<(Seq<char>, Seq<char>, u32)>, f: Format) -> Seq<char> {
    match f {
        Format::Tsv => tsv(rows),
        Format::Json(true) => "[\n"@ + json_rows(rows, ",\n"@) + "\n"@ + "]\n"@,
        Format::Json(false) => json_rows(rows, "\n"@) + "\n"@,
    }
}

fn tsv_line(i: usize, a: &String, t: &String, c: u32) -> (r: String)
    ensures
        r@ == tsv_row(i as nat, (a@, t@, c)),
{
    let mut line = decimal_string(i as u64);
    line.append("\t\"");
    line.append(a.as_str());
    line.append("\"\t\"");
    line.append(t.as_str());
    line.append("\"\t");
    line.append(decimal_string(c as u64).as_str());
    line.append("\n");
    line
}

/// The JSON object of an author and a title, each given as a JSON string
/// literal, and a count.
pub fn json_object(author: &String, title: &String, count: u32) -> (r: String)
    ensures
        r@ == json_object_text(author@, title@, count),
{
    let mut line = String::from_str("{\"author\":");
    line.append(author.as_str());
    line.append(",\"count\":");
    line.append(decimal_string(count as u64).as_str());
    line.append(",\"title\":");
    line.append(title.as_str());
    line.append("}");
    line
}

/// The report of a tally: in tab-separated values, one numbered line per
/// row; or in JSON, one object per row, either one per line or as the
/// elements of an array.
pub fn render_stats(m: &AuthorStats, f: Format) -> (r: String)
    ensures
        r@ == report(m@, f),
{
    let ghost rows = m@;
    let mut out = String::new();
    let n = m.rows.len();
    let sep = match f {
        Format::Json(true) => ",\n",
        _ => "\n",
    };
    if let Format::Json(true) = f {
        out.append("[\n");
    }
    let ghost head = out@;
    let mut i: usize = 0;
    assert(rows.subrange(0, 0) =~= Seq::<(Seq<char>, Seq<char>, u32)>::empty());
    assert(out@ =~= head + Seq::<char>::empty());
    while i < n
        invariant
            n == m.rows@.len(),
            rows == m@,
            i <= n,
            out@ == head + match f {
                Format::Tsv => tsv(rows.subrange(0, i as int)),
                _ => json_rows(rows.subrange(0, i as int), sep@),
            },
        decreases n - i,
    {
        let ghost done = out@;
        let ghost next = rows.subrange(0, i + 1);
        assert(next.drop_last() =~= rows.subrange(0, i as int));
        assert(next.last() == rows[i as int]);
        let row = &m.rows[i];
        match f {
            Format::Tsv => {
                let line = tsv_line(i, &row.0, &row.1, row.2);
                out.append(line.as_str());
                assert(out@ =~= head + tsv(next));
            },
            _ => {
                if i > 0 {
                    out.append(sep);
                }
                let line = json_object(&json_string(&row.0), &json_string(&row.1), row.2);
                out.append(line.as_str());
                if i == 0 {
                    assert(next =~= seq![rows[0]]);
                }
                assert(out@ =~= head + json_rows(next, sep@));
            },
        }
        i = i + 1;
    }
    assert(rows.subrange(0, n as int) =~= rows);
    match f {
        Format::Json(true) => {
            out.append("\n");
            out.append("]\n");
        },
        Format::Json(false) => {
            out.append("\n");
        },
        Format::Tsv => {},
    }
    out
}

} // verus!
