use refer::error::ErrorKind;
use refer::reader::take_line;
use refer::text::decimal_string;
use refer::{str_from_utf8, Author, Error, Reader, Record, RecordType, Writer};

fn author(last: &str, rest: &str) -> Author {
    Author {
        last: last.into(),
        rest: rest.into(),
    }
}

fn full_record() -> Record {
    Record {
        author: vec![author("Brown", "M."), author("Carter-Brown", "A. B.")],
        book: Some("Our book".into()),
        place: Some("Chicago".into()),
        date: Some("1972".into()),
        editor: vec!["Smith, J. (ed)".into(), "Jones".into()],
        government: Some("G-1".into()),
        issuer: Some("OUP".into()),
        journal: Some("PNAS".into()),
        keywords: Some(vec!["plant".into(), "genome".into()]),
        label: Some("brown1972".into()),
        issue_number: Some("4".into()),
        page_number: Some("1-100".into()),
        other: Some("doi: 10.1/x".into()),
        author_np: Some("The Committee".into()),
        report: Some("TR-7".into()),
        series: Some("Monographs".into()),
        title: Some("a title".into()),
        volume: Some("10".into()),
        annotation: Some("a note".into()),
    }
}

fn read_all(input: &[u8]) -> Vec<Result<Record, Error>> {
    let mut reader = Reader::new(input);
    let mut records = reader.records();
    let mut out = Vec::new();
    while let Some(item) = records.next() {
        let stop = item.is_err();
        out.push(item);
        if stop {
            break;
        }
    }
    out
}

fn read_ok(input: &[u8]) -> Vec<Record> {
    read_all(input).into_iter().map(|r| r.unwrap()).collect()
}

#[test]
fn canonical_text_in_fixed_order() {
    assert_eq!(
        full_record().to_string(),
        "%A Brown, M.\n%A Carter-Brown, A. B.\n%B Our book\n%C Chicago\n%D 1972\n\
         %E Smith, J. (ed)\n%E Jones\n%G G-1\n%I OUP\n%J PNAS\n%K plant genome\n\
         %L brown1972\n%N 4\n%O doi: 10.1/x\n%P 1-100\n%Q The Committee\n%R TR-7\n\
         %S Monographs\n%T a title\n%V 10\n%X a note\n"
    );
}

#[test]
fn absent_fields_give_no_line() {
    assert_eq!(Record::default().to_string(), "");
    let record = Record {
        title: Some("a title".into()),
        ..Default::default()
    };
    assert_eq!(record.to_string(), "%T a title\n");
    let record = Record {
        keywords: Some(vec![]),
        ..Default::default()
    };
    assert_eq!(record.to_string(), "%K \n");
    let record = Record {
        keywords: Some(vec!["one".into()]),
        ..Default::default()
    };
    assert_eq!(record.to_string(), "%K one\n");
}

#[test]
fn author_line() {
    assert_eq!(author("Brown", "M.").to_string(), "%A Brown, M.");
    assert_eq!(author("", "").to_string(), "%A , ");
}

#[test]
fn empty_record() {
    assert!(Record::default().is_empty());
    assert!(!full_record().is_empty());
    let record = Record {
        keywords: Some(vec![]),
        ..Default::default()
    };
    assert!(!record.is_empty());
    let record = Record {
        editor: vec!["".into()],
        ..Default::default()
    };
    assert!(!record.is_empty());
}

#[test]
fn record_types() {
    let book = Record {
        book: Some("b".into()),
        ..Default::default()
    };
    assert_eq!(book.record_type().unwrap(), RecordType::Book);
    let journal = Record {
        journal: Some("j".into()),
        ..Default::default()
    };
    assert_eq!(journal.record_type().unwrap(), RecordType::Journal);
    let both = Record {
        book: Some("b".into()),
        journal: Some("j".into()),
        ..Default::default()
    };
    match both.record_type().unwrap_err().into_kind() {
        ErrorKind::RecordType(msg) => assert_eq!(msg, "ambiguous: Book and Journal both set"),
        other => panic!("unexpected error {:?}", other),
    }
    match Record::default().record_type().unwrap_err().into_kind() {
        ErrorKind::RecordType(msg) => {
            assert_eq!(msg, "undetermined: Neither Book nor Journal are set")
        }
        other => panic!("unexpected error {:?}", other),
    }
}

#[test]
fn text_round_trip() {
    let record = full_record();
    let text = record.to_string();
    assert_eq!(read_ok(text.as_bytes()), vec![record.clone()]);
    let mut twice = text.clone();
    twice.push('\n');
    twice.push_str(&text);
    assert_eq!(read_ok(twice.as_bytes()), vec![record.clone(), record]);
}

#[test]
fn text_round_trip_of_odd_shapes() {
    let record = Record {
        author: vec![author("", ""), author("A", " B  C ")],
        editor: vec!["".into()],
        keywords: Some(vec!["".into(), "a".into(), "".into()]),
        title: Some("\u{e9}t\u{e9} \u{1f600}".into()),
        ..Default::default()
    };
    assert_eq!(read_ok(record.to_string().as_bytes()), vec![record]);
}

#[test]
fn written_record_reads_back() {
    let lines = vec![
        "%T  refer crate ",
        "%A Brown M",
        "%K plant genome",
        "%E  Jones ",
        "%J PNAS\n",
        "%V ",
        "%A Twyford, A. D.",
    ];
    let mut folded = Record::default();
    for (n, line) in lines.iter().enumerate() {
        refer::grammar::parse_input_line(line.to_string(), &mut folded, n as u64 + 1).unwrap();
    }
    let mut wtr = Writer::new(vec![]);
    wtr.write_record(lines).unwrap();
    wtr.flush().unwrap();
    let written = wtr.into_inner().unwrap();
    assert_eq!(
        String::from_utf8(written.clone()).unwrap(),
        "%A Brown, M\n%A Twyford, A. D.\n%E Jones\n%J PNAS\n%K plant genome\n%T refer crate\n\n"
    );
    assert_eq!(read_ok(&written), vec![folded]);
}

#[test]
fn writer_appends_records() {
    let mut wtr = Writer::new(b"%T before\n\n".to_vec());
    wtr.write_record(vec!["%A Brown, M", "%J PNAS"]).unwrap();
    wtr.write_record(vec!["%A Twyford, A. D.", "%J PNAS"])
        .unwrap();
    wtr.write_record(vec![]).unwrap();
    let data = String::from_utf8(wtr.into_inner().unwrap()).unwrap();
    assert_eq!(
        data,
        "%T before\n\n%A Brown, M\n%J PNAS\n\n%A Twyford, A. D.\n%J PNAS\n\n\n"
    );
    assert_eq!(read_ok(data.as_bytes()).len(), 3);
}

#[test]
fn refused_line_writes_nothing() {
    let mut wtr = Writer::new(b"kept".to_vec());
    let err = wtr
        .write_record(vec!["%T a title", "%A Brown", "%J PNAS"])
        .unwrap_err();
    assert!(matches!(err.kind(), ErrorKind::Author(_)));
    let err = wtr.write_record(vec!["%T a title", "title"]).unwrap_err();
    match err.kind() {
        ErrorKind::NomError(msg) => {
            assert_eq!(msg, "At line: 2. Parsing error with code (Tag): title")
        }
        other => panic!("unexpected error {:?}", other),
    }
    assert_eq!(wtr.wtr, b"kept");
}

#[test]
fn blank_lines_collapse() {
    let one = read_ok(b"%T first\n\n%T second\n");
    let many = read_ok(b"\n  \n%T first\n\n \t\n\r\n\n%T second\n\n\n\n");
    assert_eq!(one.len(), 2);
    assert_eq!(one, many);
    assert!(read_all(b"").is_empty());
    assert!(read_all(b"\n\n \n").is_empty());
    assert!(many.iter().all(|r| !r.is_empty()));
}

#[test]
fn lines_without_payload_give_no_record() {
    assert!(read_all(b"%T \n\n%V  \n").is_empty());
    assert_eq!(read_ok(b"%T \n\n%V 3\n").len(), 1);
}

#[test]
fn last_record_needs_no_separator() {
    let records = read_ok(b"%A Brown, M.\n%J PNAS");
    assert_eq!(
        records,
        vec![Record {
            author: vec![author("Brown", "M.")],
            journal: Some("PNAS".into()),
            ..Default::default()
        }]
    );
}

#[test]
fn reading_stops_at_a_refused_line() {
    let items = read_all(b"%T first\n\n%T second\nno field\n%T third\n");
    assert_eq!(items.len(), 2);
    assert_eq!(items[0].as_ref().unwrap().title, Some("first".to_string()));
    match items[1].as_ref().unwrap_err().kind() {
        ErrorKind::NomError(msg) => {
            assert_eq!(msg, "At line: 4. Parsing error with code (Tag): no field\n")
        }
        other => panic!("unexpected error {:?}", other),
    }
}

#[test]
fn reading_bytes_that_are_not_text() {
    let items = read_all(b"%T first\n\n%T \xff\xfe\n");
    assert_eq!(items.len(), 2);
    assert!(matches!(
        items[1].as_ref().unwrap_err().kind(),
        ErrorKind::Utf8(_)
    ));
    assert!(matches!(
        str_from_utf8(b"\xc3\x28").unwrap_err().kind(),
        ErrorKind::Utf8(_)
    ));
    assert_eq!(str_from_utf8("\u{e9}t\u{e9}".as_bytes()).unwrap(), "\u{e9}t\u{e9}");
}

#[test]
fn reader_iterators() {
    let mut reader = Reader::new(b"%T first\n\n%T second\n\n%T third\n");
    {
        let mut records = reader.records();
        assert!(records.next().unwrap().is_ok());
        let _ = records.reader();
        let inner = records.reader_mut();
        assert_eq!(
            inner.read_record().unwrap().unwrap().title,
            Some("second".to_string())
        );
    }
    let mut owned = reader.into_records();
    let _ = owned.reader();
    let _ = owned.reader_mut();
    assert_eq!(
        owned.next().unwrap().unwrap().title,
        Some("third".to_string())
    );
    assert!(owned.next().is_none());
    let mut reader = owned.into_reader();
    assert!(reader.read_record().unwrap().is_none());
}

#[test]
fn error_messages() {
    let show = |kind: ErrorKind| Error::new(kind).to_string();
    assert_eq!(
        show(ErrorKind::NomError("a \"b\"\n".into())),
        "refer parsing error using nom: \"a \\\"b\\\"\\n\""
    );
    assert_eq!(
        show(ErrorKind::TagNotFound("%Z ".into())),
        "the tag used (%Z ) is not in the refer specification."
    );
    assert_eq!(
        show(ErrorKind::Author("x".into())),
        "Author field incorrectly specified: x"
    );
    assert_eq!(
        show(ErrorKind::Keyword("x".into())),
        "Keyword field incorrectly specified: x"
    );
    assert_eq!(
        show(ErrorKind::RecordType("x".into())),
        "Record type cannot be both book and journal, or neither: x"
    );
    assert_eq!(
        show(ErrorKind::Unsupported("Apa".into())),
        "Style is not supported: Apa"
    );
    let utf8 = std::str::from_utf8(b"\xff").unwrap_err();
    assert_eq!(
        show(ErrorKind::Utf8(utf8)),
        format!("refer invalid UTF-8 error: {}", utf8)
    );
    let io = std::io::Error::new(std::io::ErrorKind::Other, "disk on fire");
    let err = Error::from(io);
    assert!(matches!(err.kind(), ErrorKind::Io(_)));
    assert_eq!(err.to_string(), "disk on fire");
}

#[test]
fn decimal_numbers() {
    for n in [0u64, 7, 10, 99, 100, 1234567890, u64::MAX] {
        assert_eq!(decimal_string(n), format!("{}", n));
    }
}

#[test]
fn lines_one_by_one() {
    let mut record = Record::default();
    assert_eq!(take_line(b"\n", &mut record, 1).unwrap(), false);
    assert_eq!(take_line(b" \t\r\n", &mut record, 2).unwrap(), false);
    assert!(record.is_empty());
    assert_eq!(take_line(b"%T a title\n", &mut record, 3).unwrap(), false);
    assert_eq!(take_line(b"%V 3", &mut record, 4).unwrap(), false);
    let before = record.clone();
    let err = take_line(b"%T \xff\n", &mut record, 5).unwrap_err();
    assert!(matches!(err.kind(), ErrorKind::Utf8(_)));
    let err = take_line(b"volume\n", &mut record, 6).unwrap_err();
    match err.kind() {
        ErrorKind::NomError(msg) => {
            assert_eq!(msg, "At line: 6. Parsing error with code (Tag): volume\n")
        }
        other => panic!("unexpected error {:?}", other),
    }
    assert_eq!(record, before);
    assert_eq!(take_line(b"\n", &mut record, 7).unwrap(), true);
    assert_eq!(
        record,
        Record {
            title: Some("a title".into()),
            volume: Some("3".into()),
            ..Default::default()
        }
    );
}
