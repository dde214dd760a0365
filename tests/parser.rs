use citestats::bib::{parse, BibEntry, PubType};
use citestats::cites::collect_cites;

fn karl() -> BibEntry {
    BibEntry {
        pubtype: PubType::Book,
        key: "capital".to_string(),
        author: "Karl Marx".to_string(),
        title: "Das Kapital".to_string(),
        date: "1867".to_string(),
    }
}

fn mao() -> BibEntry {
    BibEntry {
        pubtype: PubType::Book,
        key: "prac".to_string(),
        author: "毛澤東".to_string(),
        title: "On Practice".to_string(),
        date: "1937".to_string(),
    }
}

fn wei() -> BibEntry {
    BibEntry {
        pubtype: PubType::Book,
        key: "ideology".to_string(),
        author: "Wei Wei Zhang".to_string(),
        title: "Ideology and Economic Reform".to_string(),
        date: "1996".to_string(),
    }
}

#[test]
fn test_parse_simple_entry_quoted() {
    let s = r#"@book{capital,
        author = "Karl Marx", 
        title = "Das Kapital",
        date = "1867"
    }"#;
    assert!(match parse(s) {
        Ok(be) => {
            println!("success: {:?}", be);
            be.len() == 1 && be[0] == karl()
        }
        Err(e) => {
            println!("error: {:?}", e);
            false
        }
    })
}

#[test]
fn test_parse_simple_entry_curly() {
    let s = r#"@book{capital,
        author = "Karl Marx", 
        title = {Das Kapital},
        date = "1867"
    }"#;
    assert!(match parse(s) {
        Ok(be) => {
            println!("success: {}", be[0].key);
            be.len() == 1 && be[0] == karl()
        }
        Err(e) => {
            println!("error: {:?}", e);
            false
        }
    })
}

#[test]
fn test_parse_simple_entry_mao() {
    let s = r#"@book{prac,
        author = {毛澤東}, 
        title = "On Practice",
        date = "1937"
    }"#;
    assert!(match parse(s) {
        Ok(be) => {
            println!("success: {:?}", be);
            be.len() == 1 && be[0] == mao()
        }
        Err(e) => {
            println!("error: {:?}", e);
            false
        }
    })
}

#[test]
fn test_parse_simple_entry_year_no_quote() {
    let s = r#"@book{prac,
        author = {毛澤東}, 
        title = "On Practice",
        date = 1937
    }"#;
    assert!(match parse(s) {
        Ok(be) => {
            println!("success: {:?}", be);
            be.len() == 1 && be[0] == mao()
        }
        Err(e) => {
            println!("error: {:?}", e);
            false
        }
    })
}

#[test]
fn test_parse_simple_entry_wsp_key() {
    let s = r#"@book{ prac ,
        author = {毛澤東}, 
        title = "On Practice",
        date = 1937
    }"#;
    assert!(match parse(s) {
        Ok(be) => {
            println!("success: {:?}", be);
            be.len() == 1 && be[0] == mao()
        }
        Err(e) => {
            println!("error: {:?}", e);
            false
        }
    })
}

#[test]
fn test_parse_simple_entry_quotes_and_curly() {
    let s = r#"@book{ ideology,
        author = "{Wei Wei} Zhang", 
        title = "Ideology and Economic Reform",
        date = 1996
    }"#;
    assert!(match parse(s) {
        Ok(be) => {
            println!("success: {:?} | {:?}", be, wei());
            be.len() == 1 && be[0] == wei()
        }
        Err(e) => {
            println!("error: {:?}", e);
            false
        }
    })
}

#[test]
fn test_fail_author_no_quotes() {
    let s = r#"@book{ ideology,
        author = Wei Wei Zhang, 
        title = "Ideology and Economic Reform",
        date = 1996
    }"#;
    assert!(match parse(s) {
        Ok(_) => false,
        Err(_) => true,
    })
}

#[test]
fn test_fail_title_no_quotes() {
    let s = r#"@book{ ideology,
        author = "Wei Wei Zhang", 
        title = Ideology and Economic Reform,
        date = 1996
    }"#;
    assert!(match parse(s) {
        Ok(_) => false,
        Err(_) => true,
    })
}

#[test]
fn test_fail_title_no_comma() {
    let s = r#"@book{ ideology,
        author = "Wei Wei Zhang", 
        title = "Ideology and Economic Reform"
        date = 1996
    }"#;
    assert!(match parse(s) {
        Ok(_) => false,
        Err(_) => true,
    })
}

#[test]
fn test_fail_author_no_comma() {
    let s = r#"@book{ ideology,
        author = "Wei Wei Zhang"
        title = "Ideology and Economic Reform",
        date = 1996
    }"#;
    assert!(match parse(s) {
        Ok(_) => false,
        Err(_) => true,
    })
}

#[test]
fn test_fail_key_no_comma() {
    let s = r#"@book{ ideology
        author = "Wei Wei Zhang",
        title = "Ideology and Economic Reform",
        date = 1996
    }"#;
    assert!(match parse(s) {
        Ok(_) => false,
        Err(_) => true,
    })
}

#[test]
fn test_fail_no_key_no_comma() {
    let s = r#"@book{ 
        author = "Wei Wei Zhang",
        title = "Ideology and Economic Reform",
        date = 1996
    }"#;
    assert!(match parse(s) {
        Ok(_) => false,
        Err(_) => true,
    })
}

// an empty citekey is accepted
#[test]
fn test_fail_no_key() {
    let s = r#"@book{ ,
        author = "Wei Wei Zhang",
        title = "Ideology and Economic Reform",
        date = 1996
    }"#;
    assert!(match parse(s) {
        Ok(be) => {
            println!("success: {:?}", be);
            true
        }
        Err(_) => true,
    })
}

#[test]
fn test_fail_no_value() {
    let s = r#"@book{ 
        author = ,
        title = "Ideology and Economic Reform",
        date = 1996
    }"#;
    assert!(match parse(s) {
        Ok(_) => false,
        Err(_) => true,
    })
}

#[test]
fn test_fail_no_key_in_header() {
    let s = r#"@book{ 
        author = "Karl Marx",
        = "Ideology and Economic Reform",
        date = 1996
    }"#;
    assert!(match parse(s) {
        Ok(_) => false,
        Err(_) => true,
    })
}

#[test]
fn test_fail_no_pubtype() {
    let s = r#"@{ 
        author = "Karl Marx",
        = "Ideology and Economic Reform",
        date = 1996
    }"#;
    assert!(match parse(s) {
        Ok(_) => false,
        Err(_) => true,
    })
}

#[test]
fn test_fail_unknown_pubtype() {
    let s = r#"@illustrierte{ 
        author = "Karl Marx",
        = "Ideology and Economic Reform",
        date = 1996
    }"#;
    assert!(match parse(s) {
        Ok(_) => false,
        Err(_) => true,
    })
}

#[test]
fn test_find_simple_cite() {
    let s = "this is some text\\cite{work}. With some more text.";
    assert!(
        match collect_cites(s) {
            Ok(cites) => cites.len() == 1 && cites[0] == "work",
            Err(e) => {
                println!("error: {:?}", e);
                false
            }
        }
    )
}

#[test]
fn test_find_3_cites() {
    let s = "this is some text\\cite{misc}. With some more text.\\cite{book}. And still\\cite{article} more.";
    assert!(
        match collect_cites(s) {
            Ok(cites) =>
                cites.len() == 3
                    && cites[0] == "misc"
                    && cites[1] == "book"
                    && cites[2] == "article",
            Err(e) => {
                println!("error: {:?}", e);
                false
            }
        }
    )
}

#[test]
fn test_find_cite_with_opt() {
    let s = "this is some text\\cite[p. 1]{book}.";
    assert!(
        match collect_cites(s) {
            Ok(cites) => {
                println!("have: {:?}", cites);
                cites.len() == 1 && cites[0] == "book"
            }
            Err(e) => {
                println!("error: {:?}", e);
                false
            }
        }
    )
}

#[test]
fn test_find_3_cites_with_opt() {
    let s = "this is some text\\cite[p. 1]{book}. Still more text to come\\cite[blabla][pp. 100-120]{article}. An more\\cite[]{misc}.";
    assert!(
        match collect_cites(s) {
            Ok(cites) => {
                println!("have: {:?}", cites);
                cites.len() == 3
                    && cites[0] == "book"
                    && cites[1] == "article"
                    && cites[2] == "misc"
            }
            Err(e) => {
                println!("error: {:?}", e);
                false
            }
        }
    )
}

#[test]
fn test_find_nested_cite() {
    let s = "this is some text\\cite[this is {nested}][p. 1]{book}.";
    assert!(
        match collect_cites(s) {
            Ok(cites) => {
                println!("have: {:?}", cites);
                cites.len() == 1 && cites[0] == "book"
            }
            Err(e) => {
                println!("error: {:?}", e);
                false
            }
        }
    )
}

#[test]
fn test_find_3_nested_cites() {
    let s = "this is some text\\cite[p. 1, {a nested comment}]{book}.\
             Still more text to come\\cite[blabla, \\speech{and sho on}][pp. 100-120]{article}. An more\\cite[]{misc}.";
    assert!(
        match collect_cites(s) {
            Ok(cites) => {
                println!("have: {:?}", cites);
                cites.len() == 3
                    && cites[0] == "book"
                    && cites[1] == "article"
                    && cites[2] == "misc"
            }
            Err(e) => {
                println!("error: {:?}", e);
                false
            }
        }
    )
}

#[test]
fn test_find_multi_cite() {
    let s = "this is some text\\cite[p. 1]{book, article, misc}.";
    assert!(
        match collect_cites(s) {
            Ok(cites) => {
                println!("have: {:?}", cites);
                cites.len() == 3
                    && cites[0] == "book"
                    && cites[1] == "article"
                    && cites[2] == "misc"
            }
            Err(e) => {
                println!("error: {:?}", e);
                false
            }
        }
    )
}

#[test]
fn test_find_multi_cites() {
    let s = "this is some text\\cite[p. 1]{book, article, misc}. And it goes on\\cite{book, inproc}.";
    assert!(
        match collect_cites(s) {
            Ok(cites) => {
                println!("have: {:?}", cites);
                cites.len() == 5
                    && cites[0] == "book"
                    && cites[1] == "article"
                    && cites[2] == "misc"
                    && cites[3] == "book"
                    && cites[4] == "inproc"
            }
            Err(e) => {
                println!("error: {:?}", e);
                false
            }
        }
    )
}

#[test]
fn test_ignore_cite() {
    let s = "this is some text\\ignore{\\cite[p. 1]{book, article, misc}.}";
    assert!(
        match collect_cites(s) {
            Ok(cites) => cites.len() == 0,
            Err(e) => {
                println!("error: {:?}", e);
                false
            }
        }
    )
}

#[test]
fn test_ignore_cite_read_cite() {
    let s = "this is some text\\ignore{\\cite[p. 1]{book, article, misc}.} and it goes on\\cite[p. 2]{book}";
    assert!(
        match collect_cites(s) {
            Ok(cites) => cites.len() == 1 && cites[0] == "book",
            Err(e) => {
                println!("error: {:?}", e);
                false
            }
        }
    )
}

#[test]
fn test_fail_infinite_ignore() {
    let s = "this is some text\\ignore{\\cite[p. 1]{book, article, misc}.";
    assert!(
        match collect_cites(s) {
            Ok(_) => false,
            Err(_) => true,
        }
    )
}
