use refer::grammar::{
    parse_author_line, parse_author_name, parse_author_tag, parse_input_line, parse_keywords_line,
};
use refer::{Author, Reader, Record};

#[test]
fn parse_single_record() {}

#[test]
fn test_parse_author_tag() {
    let author_string = b"%A Carter-Brown, M.";
    let (parsed, _) = parse_author_tag(author_string).unwrap();
    assert_eq!(parsed, b"Carter-Brown, M.")
}

#[test]
fn test_parse_author_name() {
    let author_string = b"Carter-Brown, M.";
    let (_, y) = parse_author_name(author_string).unwrap();
    let res: Vec<&str> = y.iter().map(|e| std::str::from_utf8(e).unwrap()).collect();

    assert_eq!(vec!["Carter-Brown", "M."], res)
}

#[test]
fn test_parse_author_line() {
    let author_string = b"%A Carter-Brown, M.";
    let parsed = parse_author_line(author_string, 1).unwrap();

    assert_eq!(parsed.rest, "M.");
    assert_eq!(parsed.last, "Carter-Brown");
}

#[test]
fn test_parse_author_line_one() {
    let author_string = b"%A Carter-Brown";
    let parsed = parse_author_line(author_string, 1);

    assert!(parsed.is_err())
}

#[test]
fn test_keywords_line() {
    let keywords = b"%K keyword another word";
    let parsed = parse_keywords_line(keywords).unwrap();
    assert_eq!(
        parsed,
        &[
            "keyword".as_bytes(),
            "another".as_bytes(),
            "word".as_bytes()
        ]
    )
}

#[test]
fn parse_input_line_1() {
    let input = String::from("%B a book");
    let mut record = Record::default();
    let _ = parse_input_line(input, &mut record, 0).unwrap();

    let expected_record = Record {
        book: Some("a book".into()),
        ..Default::default()
    };

    assert_eq!(expected_record, record);
}

#[test]
fn test_reader_1() {
    let mut reader = Reader::new("%A Brown, M.\n%T a title\n".as_bytes());
    let record = reader.records().next().unwrap().unwrap();

    let expected_record = Record {
        author: vec![Author {
            last: "Brown".into(),
            rest: "M.".into(),
        }],
        title: Some("a title".into()),
        ..Default::default()
    };

    assert_eq!(expected_record, record);
}

#[test]
fn reader_test_parse_author_tag() {
    let author_string = b"%A Max Carter-Brown";
    let (parsed, _) = parse_author_tag(author_string).unwrap();
    assert_eq!(parsed, b"Max Carter-Brown")
}

#[test]
fn reader_test_parse_author_name() {
    let author_string = b"Max Carter-Brown";
    let (_, y) = parse_author_name(author_string).unwrap();
    let res: Vec<&str> = y.iter().map(|e| std::str::from_utf8(e).unwrap()).collect();

    assert_eq!(vec!["Max", "Carter-Brown"], res)
}

#[test]
fn reader_test_keywords_line() {
    let keywords = b"%K keyword another word";
    let parsed = parse_keywords_line(keywords).unwrap();
    assert_eq!(
        parsed,
        &[
            "keyword".as_bytes(),
            "another".as_bytes(),
            "word".as_bytes()
        ]
    )
}
