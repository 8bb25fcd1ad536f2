use refer::error::ErrorKind;
use refer::style::{harvard_author_string, harvard_date_string};
use refer::{Author, Record, Style, StyleBuilder};

fn author(last: &str, rest: &str) -> Author {
    Author {
        last: last.into(),
        rest: rest.into(),
    }
}

fn authors(n: usize) -> Vec<Author> {
    let names = ["Brown", "Carter", "Davis", "Evans", "Ford", "Gray"];
    (0..n).map(|i| author(names[i], "A.")).collect()
}

#[test]
fn harvard_book() {
    let record = Record {
        author: vec![author("Brown", "M."), author("Carter", "A.")],
        date: Some("1972".into()),
        book: Some("Our book".into()),
        place: Some("Chicago".into()),
        issuer: Some("OUP".into()),
        volume: Some("10".into()),
        ..Default::default()
    };
    assert_eq!(
        StyleBuilder::new(record).format().unwrap(),
        "Brown M. and Carter A. (1972) Our book. Chicago: OUP. 10."
    );
}

#[test]
fn harvard_book_punctuation_follows_presence() {
    let base = Record {
        book: Some("Our book".into()),
        ..Default::default()
    };
    let render = |r: Record| StyleBuilder::new(r).format().unwrap();
    assert_eq!(render(base.clone()), "Our book. ");
    assert_eq!(
        render(Record {
            issuer: Some("OUP".into()),
            ..base.clone()
        }),
        "Our book. OUP. "
    );
    assert_eq!(
        render(Record {
            place: Some("Chicago".into()),
            ..base.clone()
        }),
        "Our book. Chicago"
    );
    assert_eq!(
        render(Record {
            series: Some("Monographs".into()),
            ..base.clone()
        }),
        "Our book. Monographs."
    );
    assert_eq!(
        render(Record {
            series: Some("Monographs".into()),
            volume: Some("3".into()),
            ..base.clone()
        }),
        "Our book. Monographs, 3."
    );
    assert_eq!(
        render(Record {
            author: authors(1),
            title: Some("ignored".into()),
            ..base
        }),
        "Brown A. Our book. "
    );
}

#[test]
fn harvard_journal() {
    let record = Record {
        author: authors(3),
        date: Some("2001".into()),
        title: Some("a title".into()),
        journal: Some("PNAS".into()),
        volume: Some("98".into()),
        issue_number: Some("4".into()),
        page_number: Some("1-10".into()),
        book: None,
        ..Default::default()
    };
    assert_eq!(
        StyleBuilder::new(record).format().unwrap(),
        "Brown A. and Carter A. and Davis A. (2001) a title. PNAS, 98(4) 1-10."
    );
    let record = Record {
        journal: Some("PNAS".into()),
        ..Default::default()
    };
    assert_eq!(StyleBuilder::new(record).format().unwrap(), "PNAS, ");
    let record = Record {
        journal: Some("PNAS".into()),
        page_number: Some("7".into()),
        issue_number: Some("2".into()),
        ..Default::default()
    };
    assert_eq!(StyleBuilder::new(record).format().unwrap(), "PNAS, (2) 7.");
}

#[test]
fn author_segment() {
    let segment = |n: usize| {
        harvard_author_string(&Record {
            author: authors(n),
            ..Default::default()
        })
    };
    assert_eq!(segment(0), "");
    assert_eq!(segment(1), "Brown A. ");
    assert_eq!(segment(2), "Brown A. and Carter A. ");
    assert_eq!(
        segment(4),
        "Brown A. and Carter A. and Davis A. and Evans A. "
    );
    assert_eq!(segment(5), "Brown A. et al., ");
    assert_eq!(segment(6), "Brown A. et al., ");
}

#[test]
fn five_authors() {
    let record = Record {
        author: vec![
            author("Twyford", "A. D."),
            author("Brown", "M."),
            author("Carter", "A."),
            author("Davis", "B."),
            author("Evans", "C."),
        ],
        journal: Some("PNAS".into()),
        ..Default::default()
    };
    assert_eq!(harvard_author_string(&record), "Twyford A. D. et al., ");
    assert_eq!(
        StyleBuilder::new(record).format().unwrap(),
        "Twyford A. D. et al., PNAS, "
    );
}

#[test]
fn date_segment() {
    let mut text = String::from("x");
    harvard_date_string(&Record::default(), &mut text);
    assert_eq!(text, "x");
    harvard_date_string(
        &Record {
            date: Some("1972".into()),
            ..Default::default()
        },
        &mut text,
    );
    assert_eq!(text, "x(1972) ");
}

#[test]
fn record_without_type_is_refused_under_any_style() {
    let neither = Record {
        title: Some("a title".into()),
        ..Default::default()
    };
    let both = Record {
        book: Some("b".into()),
        journal: Some("j".into()),
        ..Default::default()
    };
    for style in [Style::Harvard, Style::Apa] {
        let mut builder = StyleBuilder::new(neither.clone());
        builder.set_style(style);
        match builder.format().unwrap_err().into_kind() {
            ErrorKind::RecordType(msg) => {
                assert_eq!(msg, "undetermined: Neither Book nor Journal are set")
            }
            other => panic!("unexpected error {:?}", other),
        }
        let mut builder = StyleBuilder::new(both.clone());
        builder.set_style(style);
        builder.use_other();
        match builder.format().unwrap_err().into_kind() {
            ErrorKind::RecordType(msg) => assert_eq!(msg, "ambiguous: Book and Journal both set"),
            other => panic!("unexpected error {:?}", other),
        }
    }
}

#[test]
fn other_style_is_not_supported() {
    let mut builder = StyleBuilder::new(Record {
        book: Some("b".into()),
        ..Default::default()
    });
    builder.set_style(Style::Apa);
    match builder.format().unwrap_err().into_kind() {
        ErrorKind::Unsupported(msg) => assert_eq!(msg, "Apa"),
        other => panic!("unexpected error {:?}", other),
    }
    builder.set_style(Style::default());
    assert_eq!(builder.format().unwrap(), "b. ");
    assert_eq!(Style::default(), Style::Harvard);
}
