use refer::error::ErrorKind;
use refer::grammar::{
    is_token, parse_all_keywords, parse_annotation_line, parse_author_line, parse_author_name,
    parse_author_tag, parse_field_line, parse_input_line, parse_keywords_line, parse_tag,
    TokenKind,
};
use refer::{Author, Record};

fn fold(lines: &[&str]) -> Result<Record, refer::Error> {
    let mut record = Record::default();
    let mut n = 0;
    for line in lines {
        n += 1;
        parse_input_line(line.to_string(), &mut record, n)?;
    }
    Ok(record)
}

#[test]
fn author_with_one_name_is_refused() {
    let err = parse_author_line(b"%A Brown", 3).unwrap_err();
    match err.kind() {
        ErrorKind::Author(msg) => assert_eq!(
            msg,
            "Input error: %A Brown. `Number of names should be of length 2 or more, found 0 or 1"
        ),
        other => panic!("unexpected error {:?}", other),
    }
}

#[test]
fn author_without_names_is_refused() {
    let err = parse_author_line(b"%A \n", 1).unwrap_err();
    assert!(matches!(err.kind(), ErrorKind::Author(_)));
}

#[test]
fn author_with_two_names_by_space() {
    let author = parse_author_line(b"%A Brown Max\n", 1).unwrap();
    assert_eq!(author.last, "Brown");
    assert_eq!(author.rest, "Max");
}

#[test]
fn author_with_many_names() {
    let author = parse_author_line(b"%A Twyford, A. D. Jr.\n", 1).unwrap();
    assert_eq!(author.last, "Twyford");
    assert_eq!(author.rest, "A. D. Jr.");
}

#[test]
fn author_names_stop_at_other_characters() {
    let author = parse_author_line(b"%A Brown, M. (ed)\n", 1).unwrap();
    assert_eq!(author.last, "Brown");
    assert_eq!(author.rest, "M. ");
    // a digit is no part of a name, so the only name is the empty one
    assert!(parse_author_line(b"%A 4Brown, M.\n", 1).is_err());
}

#[test]
fn author_line_without_tag_is_no_field() {
    let err = parse_author_line(b"%B Brown, M.", 12).unwrap_err();
    match err.kind() {
        ErrorKind::NomError(msg) => {
            assert_eq!(msg, "At line: 12. Parsing error with code (Tag): %B Brown, M.")
        }
        other => panic!("unexpected error {:?}", other),
    }
}

#[test]
fn author_line_that_is_not_text() {
    let err = parse_author_line(b"%A \xff", 1).unwrap_err();
    assert!(matches!(err.kind(), ErrorKind::Utf8(_)));
    let err = parse_author_line(b"\xff", 1).unwrap_err();
    assert!(matches!(err.kind(), ErrorKind::Utf8(_)));
}

#[test]
fn keyword_line_without_tag() {
    let err = parse_keywords_line(b"%A word").unwrap_err();
    match err.kind() {
        ErrorKind::Keyword(msg) => {
            assert_eq!(msg, "Keyword line parsing error with code (Tag): %A word")
        }
        other => panic!("unexpected error {:?}", other),
    }
    let err = parse_keywords_line(b"\xc3").unwrap_err();
    assert!(matches!(err.kind(), ErrorKind::Utf8(_)));
}

#[test]
fn keywords_stop_at_other_characters() {
    let parsed = parse_keywords_line(b"%K plant hybrid-zone more").unwrap();
    assert_eq!(parsed, &["plant".as_bytes(), "hybrid".as_bytes()]);
    let (rest, words) = parse_all_keywords(b"a  b, c").unwrap();
    assert_eq!(words, &["a".as_bytes(), "".as_bytes(), "b".as_bytes()]);
    assert_eq!(rest, b", c");
}

#[test]
fn names_and_their_separators() {
    let (rest, names) = parse_author_name(b"Carter-Brown, M. J.\n").unwrap();
    assert_eq!(
        names,
        &["Carter-Brown".as_bytes(), "M.".as_bytes(), "J.".as_bytes()]
    );
    assert_eq!(rest, b"\n");
    let (rest, names) = parse_author_name(b"").unwrap();
    assert_eq!(names, &["".as_bytes()]);
    assert_eq!(rest, b"");
    let (rest, names) = parse_author_name(b"Brown,  M.").unwrap();
    assert_eq!(names, &["Brown".as_bytes(), "".as_bytes(), "M.".as_bytes()]);
    assert_eq!(rest, b"");
}

#[test]
fn token_bytes() {
    for b in 0..=255u8 {
        let letter = b.is_ascii_alphabetic();
        assert_eq!(is_token(TokenKind::Keyword, b), letter);
        assert_eq!(is_token(TokenKind::Name, b), letter || b == b'-' || b == b'.');
    }
}

#[test]
fn tags() {
    assert_eq!(
        parse_tag(b"%T a title", b'T'),
        Some((&b"a title"[..], &b"%T "[..]))
    );
    assert_eq!(parse_tag(b"%T a title", b'V'), None);
    assert_eq!(parse_tag(b"%T", b'T'), None);
    assert_eq!(parse_tag(b"%Ta title", b'T'), None);
    assert_eq!(parse_tag(b" %T a", b'T'), None);
    assert_eq!(parse_author_tag(b"%A "), Some((&b""[..], &b"%A "[..])));
    assert_eq!(
        parse_annotation_line(b"%X note"),
        Some((&b"note"[..], &b"%X "[..]))
    );
}

#[test]
fn single_valued_fields_in_order() {
    for (letter, _) in fields() {
        let line = format!("%{} text", letter);
        let found = parse_field_line(line.as_bytes());
        assert_eq!(found, Some((&b"text"[..], &line.as_bytes()[..3])));
    }
    for letter in ["A", "E", "K", "Z", "b", "1"] {
        let line = format!("%{} text", letter);
        assert_eq!(parse_field_line(line.as_bytes()), None);
    }
}

fn fields() -> Vec<(&'static str, fn(&Record) -> &Option<String>)> {
    vec![
        ("B", |r| &r.book),
        ("C", |r| &r.place),
        ("D", |r| &r.date),
        ("G", |r| &r.government),
        ("I", |r| &r.issuer),
        ("J", |r| &r.journal),
        ("L", |r| &r.label),
        ("N", |r| &r.issue_number),
        ("O", |r| &r.other),
        ("P", |r| &r.page_number),
        ("Q", |r| &r.author_np),
        ("R", |r| &r.report),
        ("S", |r| &r.series),
        ("T", |r| &r.title),
        ("V", |r| &r.volume),
        ("X", |r| &r.annotation),
    ]
}

#[test]
fn each_field_is_set_by_its_tag() {
    for (letter, get) in fields() {
        let record = fold(&[&format!("%{}  some text \n", letter)]).unwrap();
        assert_eq!(get(&record), &Some("some text".to_string()));
        let mut expected = Record::default();
        assert_ne!(record, expected);
        // only that field is set
        let again = fold(&[&format!("%{} some text", letter)]).unwrap();
        assert_eq!(record, again);
        expected.author.clear();
    }
}

#[test]
fn empty_payload_sets_nothing() {
    for (letter, _) in fields() {
        let record = fold(&[&format!("%{} \n", letter), &format!("%{}  \t ", letter)]).unwrap();
        assert_eq!(record, Record::default());
    }
}

#[test]
fn later_line_replaces_field() {
    let record = fold(&["%T first", "%T second"]).unwrap();
    assert_eq!(record.title, Some("second".to_string()));
}

#[test]
fn payload_is_trimmed_of_unicode_whitespace() {
    let record = fold(&["%T \u{a0}\u{2003} a title\u{3000}\r\n"]).unwrap();
    assert_eq!(record.title, Some("a title".to_string()));
    let record = fold(&["%T \u{200b}a title"]).unwrap();
    assert_eq!(record.title, Some("\u{200b}a title".to_string()));
}

#[test]
fn editors_are_collected() {
    let record = fold(&["%E  Smith, J. (ed) ", "%E ", "%E Jones"]).unwrap();
    assert_eq!(record.editor, vec!["Smith, J. (ed)", "", "Jones"]);
}

#[test]
fn keywords_are_set() {
    let record = fold(&["%K plant genome size"]).unwrap();
    assert_eq!(
        record.keywords,
        Some(vec![
            "plant".to_string(),
            "genome".to_string(),
            "size".to_string()
        ])
    );
    let record = fold(&["%K \n"]).unwrap();
    assert_eq!(record.keywords, Some(vec!["".to_string()]));
    assert_ne!(record, Record::default());
}

#[test]
fn authors_are_collected_in_order() {
    let record = fold(&["%A Brown, M.", "%A Carter A. B."]).unwrap();
    assert_eq!(
        record.author,
        vec![
            Author {
                last: "Brown".into(),
                rest: "M.".into()
            },
            Author {
                last: "Carter".into(),
                rest: "A. B.".into()
            }
        ]
    );
}

#[test]
fn unknown_line_is_refused_and_leaves_the_record() {
    let mut record = fold(&["%T a title"]).unwrap();
    let before = record.clone();
    for line in ["hello", "%Z text", "%T", "%Ttext", "", " %T text", "%a Brown, M."] {
        let err = parse_input_line(line.to_string(), &mut record, 40).unwrap_err();
        match err.kind() {
            ErrorKind::NomError(msg) => assert_eq!(
                msg,
                &format!("At line: 40. Parsing error with code (Tag): {}", line)
            ),
            other => panic!("unexpected error {:?}", other),
        }
        assert_eq!(record, before);
    }
    let err = parse_input_line("%A Brown".to_string(), &mut record, 1).unwrap_err();
    assert!(matches!(err.kind(), ErrorKind::Author(_)));
    assert_eq!(record, before);
}

#[test]
fn line_numbers_in_messages() {
    let mut record = Record::default();
    for (n, text) in [
        (0u64, "0"),
        (9, "9"),
        (10, "10"),
        (4096, "4096"),
        (18446744073709551615, "18446744073709551615"),
    ] {
        let err = parse_input_line("x".to_string(), &mut record, n).unwrap_err();
        match err.kind() {
            ErrorKind::NomError(msg) => assert_eq!(
                msg,
                &format!("At line: {}. Parsing error with code (Tag): x", text)
            ),
            other => panic!("unexpected error {:?}", other),
        }
    }
}

#[test]
fn accepted_line_returns_some() {
    let mut record = Record::default();
    assert_eq!(
        parse_input_line("%D 1972".to_string(), &mut record, 1).unwrap(),
        Some(())
    );
    assert_eq!(
        parse_input_line("%D ".to_string(), &mut record, 2).unwrap(),
        Some(())
    );
    assert_eq!(record.date, Some("1972".to_string()));
}
