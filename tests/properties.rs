use citestats::bib::{parse, BibEntry, PubType};
use citestats::cites::collect_cites;
use citestats::error::ErrorKind;
use citestats::stats::{bib_to_map, count_all, count_up, render_stats, AuthorStats, Format};

fn entry(pubtype: PubType, key: &str, author: &str, title: &str, date: &str) -> BibEntry {
    BibEntry {
        pubtype,
        key: key.to_string(),
        author: author.to_string(),
        title: title.to_string(),
        date: date.to_string(),
    }
}

#[test]
fn quoted_and_braced_values_give_the_same_entry() {
    let quoted = parse(r#"@article{k, author = "A {B} C", title = "T", date = "2001"}"#).unwrap();
    let braced = parse(r#"@article{k, author = {A {B C}, title = {T}, date = {2001}}"#).unwrap();
    assert_eq!(quoted, braced);
    assert_eq!(quoted[0].author, "A B C");
}

#[test]
fn duplicate_field_fails_and_names_it() {
    let e = parse(r#"@book{k, author = "A", title = "T", author = "B"}"#).unwrap_err();
    assert_eq!(e.kind, ErrorKind::DuplicateField);
    assert_eq!(e.detail, "author");
}

#[test]
fn unknown_fields_are_accepted_and_dropped() {
    let es = parse(r#"@misc{k, publisher = "P", title = "T", pages = 12, note = {n}}"#).unwrap();
    assert_eq!(es, vec![entry(PubType::Misc, "k", "", "T", "")]);
}

#[test]
fn optional_arguments_do_not_change_the_keys() {
    let plain = collect_cites("x\\cite{a, b}y").unwrap();
    let one = collect_cites("x\\cite[p. 3]{a, b}y").unwrap();
    let two = collect_cites("x\\cite [see {this note}][p. 3] {a, b}y").unwrap();
    assert_eq!(plain, vec!["a".to_string(), "b".to_string()]);
    assert_eq!(plain, one);
    assert_eq!(plain, two);
}

#[test]
fn nested_ignore_block_yields_nothing() {
    let s = "a\\ignore{ {\\cite{x}} {{\\cite[{y}]{z}}} }b\\cite{w}";
    assert_eq!(collect_cites(s).unwrap(), vec!["w".to_string()]);
}

#[test]
fn scanning_twice_gives_the_same_keys() {
    let s = "\\cite{a}\\cite[q]{b,a}\\ignore{\\cite{c}}\\cite{a}";
    let first = collect_cites(s).unwrap();
    assert_eq!(first, collect_cites(s).unwrap());
    assert_eq!(first, vec!["a", "b", "a", "a"]);
}

#[test]
fn scenario_capital() {
    let es = parse(r#"@book{capital, author = "Karl Marx", title = "Das Kapital", date = "1867" }"#)
        .unwrap();
    assert_eq!(es, vec![entry(PubType::Book, "capital", "Karl Marx", "Das Kapital", "1867")]);
}

#[test]
fn scenario_practice() {
    let es = parse(r#"@book{prac, author = {毛澤東}, title = "On Practice", date = 1937 }"#).unwrap();
    assert_eq!(es, vec![entry(PubType::Book, "prac", "毛澤東", "On Practice", "1937")]);
}

#[test]
fn scenario_key_sequence() {
    let ks = collect_cites("...\\cite[p. 1]{book, article, misc}. ...\\cite{book, inproc}.").unwrap();
    assert_eq!(ks, vec!["book", "article", "misc", "book", "inproc"]);
}

#[test]
fn scenario_ignored_citation() {
    let ks = collect_cites("...\\ignore{\\cite[p. 1]{book}.} and \\cite[p. 2]{book}").unwrap();
    assert_eq!(ks, vec!["book"]);
}

#[test]
fn scenario_unclosed_key_list() {
    let e = collect_cites("text \\cite{a, b").unwrap_err();
    assert_eq!(e.kind, ErrorKind::EndOfInput);
    assert_eq!(e.pos, 15);
}

#[test]
fn scenario_unknown_type() {
    let e = parse(r#"@illustrierte{x, author="A", title="T", date=1}"#).unwrap_err();
    assert_eq!(e.kind, ErrorKind::UnexpectedToken);
    assert_eq!(e.detail, "illustrierte");
    assert_eq!(e.pos, 1);
}

#[test]
fn empty_bibliography_fails() {
    let e = parse(" \n\t ").unwrap_err();
    assert_eq!(e.kind, ErrorKind::EndOfInput);
    assert_eq!(e.pos, 4);
}

#[test]
fn several_entries_in_any_case() {
    let s = "@BOOK{a, title = \"X\"}\n\n@InProceedings{b, date = 2}\n@inCollection{c,author={Z}}\n";
    let es = parse(s).unwrap();
    assert_eq!(
        es,
        vec![
            entry(PubType::Book, "a", "", "X", ""),
            entry(PubType::Inproc, "b", "", "", "2"),
            entry(PubType::Incol, "c", "Z", "", ""),
        ]
    );
}

#[test]
fn malformed_second_entry_fails_the_whole_parse() {
    let e = parse("@book{a, title = \"X\"} @book{b, title = X}").unwrap_err();
    assert_eq!(e.kind, ErrorKind::UnexpectedToken);
    assert_eq!(e.detail, "X");
    assert_eq!(e.pos, 39);
}

#[test]
fn citekey_with_extended_characters() {
    let es = parse("@misc{ a-b_c:d9 , title = \"T\"}").unwrap();
    assert_eq!(es[0].key, "a-b_c:d9");
}

#[test]
fn unbalanced_braced_value_closes_at_first_brace() {
    let e = parse("@book{k, title = {a{b}c}}").unwrap_err();
    assert_eq!(e.kind, ErrorKind::UnexpectedToken);
    assert_eq!(e.detail, "c");
    assert_eq!(e.pos, 22);
}

#[test]
fn empty_key_list_yields_no_keys() {
    assert_eq!(collect_cites("a\\cite{}b\\cite[x]{ }c").unwrap(), Vec::<String>::new());
}

#[test]
fn citation_without_key_list_fails() {
    let e = collect_cites("a\\cite[p. 2] and more").unwrap_err();
    assert_eq!(e.kind, ErrorKind::MissingKey);
}

#[test]
fn unterminated_ignore_block_fails() {
    let e = collect_cites("a\\ignore{ {b} ").unwrap_err();
    assert_eq!(e.kind, ErrorKind::UnterminatedBlock);
}

#[test]
fn other_commands_are_text() {
    let ks = collect_cites("\\emph{x} \\\\ \\citet \\ignorex \\cite{k}").unwrap();
    assert_eq!(ks, vec!["k"]);
}

#[test]
fn unicode_citekeys() {
    let ks = collect_cites("\\cite{Straße, 毛}").unwrap();
    assert_eq!(ks, vec!["Straße", "毛"]);
}

#[test]
fn empty_entry_is_blank_misc() {
    assert_eq!(BibEntry::empty(), entry(PubType::Misc, "", "", "", ""));
}

fn sample() -> Vec<BibEntry> {
    vec![
        entry(PubType::Book, "a", "Ann", "One", "1"),
        entry(PubType::Book, "b", "Bob \"B\"", "Two", "2"),
        entry(PubType::Book, "a", "Other", "Shadowed", "3"),
    ]
}

#[test]
fn first_entry_of_a_key_wins() {
    let m = bib_to_map(sample());
    assert_eq!(m.entries.len(), 2);
    assert_eq!(m.entries[0].author, "Ann");
    assert_eq!(m.entries[1].key, "b");
}

#[test]
fn count_up_counts_and_rejects_unknown_keys() {
    let m = bib_to_map(sample());
    let mut st = AuthorStats::new();
    assert_eq!(count_up("a", &m, &mut st), Ok(()));
    assert_eq!(count_up("a", &m, &mut st), Ok(()));
    assert_eq!(count_up("zz", &m, &mut st), Err(()));
    assert_eq!(count_up("b", &m, &mut st), Ok(()));
    assert_eq!(
        st.rows,
        vec![
            ("Ann".to_string(), "One".to_string(), 2),
            ("Bob \"B\"".to_string(), "Two".to_string(), 1)
        ]
    );
}

#[test]
fn count_all_reports_missing_keys() {
    let m = bib_to_map(sample());
    let mut st = AuthorStats::new();
    let keys: Vec<String> = ["a", "x", "b", "a", "x"].iter().map(|k| k.to_string()).collect();
    let missing = count_all(&keys, &m, &mut st);
    assert_eq!(missing, vec!["x", "x"]);
    assert_eq!(st.rows[0].2, 2);
    assert_eq!(st.rows[1].2, 1);
}

fn counted() -> AuthorStats {
    let m = bib_to_map(sample());
    let mut st = AuthorStats::new();
    let keys: Vec<String> = std::iter::repeat("a".to_string()).take(12).chain(["b".to_string()]).collect();
    count_all(&keys, &m, &mut st);
    st
}

#[test]
fn tsv_report() {
    assert_eq!(
        render_stats(&counted(), Format::Tsv),
        "0\t\"Ann\"\t\"One\"\t12\n1\t\"Bob \"B\"\"\t\"Two\"\t1\n"
    );
}

#[test]
fn json_report_lines() {
    assert_eq!(
        render_stats(&counted(), Format::Json(false)),
        "{\"author\":\"Ann\",\"count\":12,\"title\":\"One\"}\n{\"author\":\"Bob \\\"B\\\"\",\"count\":1,\"title\":\"Two\"}\n"
    );
}

#[test]
fn json_report_array() {
    assert_eq!(
        render_stats(&counted(), Format::Json(true)),
        "[\n{\"author\":\"Ann\",\"count\":12,\"title\":\"One\"},\n{\"author\":\"Bob \\\"B\\\"\",\"count\":1,\"title\":\"Two\"}\n]\n"
    );
}

#[test]
fn empty_reports() {
    let st = AuthorStats::new();
    assert_eq!(render_stats(&st, Format::Tsv), "");
    assert_eq!(render_stats(&st, Format::Json(false)), "\n");
    assert_eq!(render_stats(&st, Format::Json(true)), "[\n\n]\n");
}

#[test]
fn json_object_from_quoted_parts() {
    let o = citestats::stats::json_object(&"\"A\"".to_string(), &"\"T\"".to_string(), 305);
    assert_eq!(o, "{\"author\":\"A\",\"count\":305,\"title\":\"T\"}");
}
