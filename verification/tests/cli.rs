use refer::cli::{
    command_of, editor_arguments, editor_from_entry, find_title, generate_help_rc,
    keyword_matches, read_editor, record_count, record_has_keywords, record_titles, tagged_line,
    write_from_cli_or_editor_string, Action, Command, ConfigEntry,
};
use refer::error::ErrorKind;
use refer::{AppArgs, Record, ReferEditor, Writer};

#[test]
fn editors_by_name() {
    assert_eq!(ReferEditor::from_str("nano"), Ok(ReferEditor::Nano));
    assert_eq!(ReferEditor::from_str("hx"), Ok(ReferEditor::Helix));
    for other in ["", "vim", "nano ", "Nano", "h", "hxx"] {
        assert_eq!(
            ReferEditor::from_str(other),
            Err("the refer editor can currently only be either nano or helix".to_string())
        );
    }
    assert_eq!(ReferEditor::Nano.to_string(), "nano");
    assert_eq!(ReferEditor::Helix.to_string(), "hx");
}

#[test]
fn subcommands() {
    assert_eq!(command_of(None), Ok(None));
    assert_eq!(command_of(Some("add")), Ok(Some(Command::Add)));
    assert_eq!(command_of(Some("remove")), Ok(Some(Command::Remove)));
    assert_eq!(command_of(Some("edit")), Ok(Some(Command::Edit)));
    assert_eq!(command_of(Some("status")), Ok(Some(Command::Status)));
    assert_eq!(command_of(Some("setup")), Ok(Some(Command::Setup)));
    assert_eq!(
        command_of(Some("clear")),
        Err("\"clear\" is an unknown subcommand".to_string())
    );
    assert_eq!(
        command_of(Some("")),
        Err("\"\" is an unknown subcommand".to_string())
    );
}

#[test]
fn actions() {
    assert_eq!(AppArgs::Global { help: true }.action(), Ok(Action::Help));
    assert_eq!(
        AppArgs::Global { help: false }.action(),
        Err("Unknown argument to rc, pass -h or --help to view help.".to_string())
    );
    let refused = Err(
        "for `rc add`, only one of journal, book, string, or editor may be specifed on the cli"
            .to_string(),
    );
    for journal in [false, true] {
        for editor in [false, true] {
            let args = AppArgs::Add {
                journal,
                book: false,
                string: None,
                editor,
            };
            assert_eq!(args.action(), refused);
        }
    }
    let args = AppArgs::Add {
        journal: false,
        book: true,
        string: Some("%T a title".into()),
        editor: false,
    };
    assert_eq!(args.action(), refused);
    assert_eq!(
        AppArgs::Edit {
            keywords: vec![],
            all: false
        }
        .action(),
        Err("`rc edit` must have at least one keyword, or pass the -a flag".to_string())
    );
    assert_eq!(
        AppArgs::Edit {
            keywords: vec![],
            all: true
        }
        .action(),
        Ok(Action::Edit)
    );
    assert_eq!(
        AppArgs::Edit {
            keywords: vec!["plant".into()],
            all: false
        }
        .action(),
        Ok(Action::Edit)
    );
    assert_eq!(
        AppArgs::Remove { keywords: vec![] }.action(),
        Ok(Action::Remove)
    );
    assert_eq!(AppArgs::Status.action(), Ok(Action::Status));
    assert_eq!(AppArgs::Setup.action(), Ok(Action::Setup));
    assert_eq!(AppArgs::Clear.action(), Ok(Action::Clear));
}

#[test]
fn help() {
    let help = generate_help_rc("0.1.0");
    assert!(help.starts_with("rc 0.1.0\nMax Brown <euphrasiamax@gmail.com>\n"));
    assert!(help.contains("\nUSAGE:\n    rc [-h] [subcommand] [options]\n\n"));
    assert!(help.contains("    rc status                 - some stats on the database\n"));
    assert!(help.ends_with("only be run once upon installing.\n"));
    assert_eq!(help.lines().count(), 18);
}

#[test]
fn editor_of_configuration() {
    assert_eq!(read_editor(None), Some(Ok(ReferEditor::Nano)));
    assert_eq!(
        read_editor(Some("editor = \"hx\"\n")),
        Some(Ok(ReferEditor::Helix))
    );
    assert_eq!(
        read_editor(Some("# rc configuration file\neditor = \"nano\"")),
        Some(Ok(ReferEditor::Nano))
    );
    assert_eq!(
        read_editor(Some("editor = \"vim\"")),
        Some(Err(
            "the refer editor can currently only be either nano or helix".to_string()
        ))
    );
    assert_eq!(read_editor(Some("editor = 3")), Some(Ok(ReferEditor::Nano)));
    assert_eq!(read_editor(Some("other = \"hx\"")), None);
    assert_eq!(read_editor(Some("")), None);
    assert!(matches!(read_editor(Some("editor = ")), Some(Err(_))));
    assert_eq!(editor_from_entry(ConfigEntry::Missing), None);
    assert_eq!(
        editor_from_entry(ConfigEntry::Invalid("bad".into())),
        Some(Err("bad".to_string()))
    );
    assert_eq!(
        editor_from_entry(ConfigEntry::Text("hx".into())),
        Some(Ok(ReferEditor::Helix))
    );
    assert_eq!(
        editor_from_entry(ConfigEntry::NotText),
        Some(Ok(ReferEditor::Nano))
    );
}

#[test]
fn answers_become_field_lines() {
    assert_eq!(tagged_line("%A ", ""), None);
    assert_eq!(
        tagged_line("%A ", "Brown, M."),
        Some("%A Brown, M.".to_string())
    );
    assert_eq!(tagged_line("%T ", " "), Some("%T  ".to_string()));
}

#[test]
fn counting_records() {
    assert_eq!(record_count(b""), 0);
    assert_eq!(record_count(b"\n\n"), 0);
    assert_eq!(record_count(b"%T one\n"), 1);
    assert_eq!(record_count(b"%T one\n\n\n%T two\n%V 3\n\n%T three"), 3);
    assert_eq!(record_count(b"%T one\n\nno field\n\n%T three"), 2);
    assert_eq!(record_count(b"no field\n"), 1);
}

#[test]
fn titles_of_records() {
    assert_eq!(
        record_titles(b"%T one\n\n%A Brown, M.\n\n%V 3\n%T two\n").unwrap(),
        vec!["one", "two"]
    );
    assert!(record_titles(b"").unwrap().is_empty());
    let err = record_titles(b"%T one\n\n%A Brown\n").unwrap_err();
    assert!(matches!(err.kind(), ErrorKind::Author(_)));
}

#[test]
fn line_of_a_title() {
    let data = b"%A Brown, M.\n%T one\n\n%T two\n%V 3\n%J PNAS\n\n%A Carter, A.\n\n%T four\n";
    let line = |title: &str| find_title(data, title).unwrap().map(|found| found.0);
    assert_eq!(line("one"), Some(0));
    assert_eq!(line("two"), Some(4));
    assert_eq!(line(""), Some(9));
    assert_eq!(line("four"), Some(12));
    assert_eq!(line("five"), None);
    let (_, record) = find_title(data, "two").unwrap().unwrap();
    assert_eq!(record.to_string(), "%J PNAS\n%T two\n%V 3\n");
    assert_eq!(find_title(b"", "").unwrap(), None);
    let err = find_title(b"%T one\n\nno field\n\n%T two\n", "two").unwrap_err();
    assert!(matches!(err.kind(), ErrorKind::NomError(_)));
    assert_eq!(
        find_title(b"%T one\n\nno field\n", "one")
            .unwrap()
            .map(|found| found.0),
        Some(0)
    );
}

#[test]
fn records_by_keywords() {
    let data = b"%T one\n%K plant genome\n\n%T two\n\n%T three\n%K genome size plant\n";
    let titles = |keywords: &[&str]| -> Vec<String> {
        let wanted: Vec<String> = keywords.iter().map(|k| k.to_string()).collect();
        keyword_matches(data, &wanted)
            .unwrap()
            .into_iter()
            .map(|r| r.title.unwrap())
            .collect()
    };
    assert_eq!(titles(&["plant"]), vec!["one", "three"]);
    assert_eq!(titles(&["size", "plant"]), vec!["three"]);
    assert_eq!(titles(&["animal"]), Vec::<String>::new());
    assert_eq!(titles(&[]), vec!["one", "two", "three"]);
    assert!(keyword_matches(b"%T one\n%K a\n\n%A Brown\n", &vec!["a".to_string()]).is_err());
    let record = Record {
        keywords: Some(vec!["plant".into(), "genome".into()]),
        ..Default::default()
    };
    assert!(record_has_keywords(&record, &vec!["genome".to_string()]));
    assert!(!record_has_keywords(&record, &vec!["genom".to_string()]));
    assert!(!record_has_keywords(&Record::default(), &vec!["genome".to_string()]));
    assert!(record_has_keywords(&Record::default(), &vec![]));
}

#[test]
fn arguments_of_the_editor() {
    assert_eq!(
        editor_arguments(ReferEditor::Nano, "/home/me/.refer/bib.refer", 10, true),
        vec!["+10", "/home/me/.refer/bib.refer"]
    );
    assert_eq!(
        editor_arguments(ReferEditor::Nano, "bib.refer", 0, false),
        vec!["bib.refer +0"]
    );
    assert_eq!(
        editor_arguments(ReferEditor::Helix, "bib.refer", 123, true),
        vec!["bib.refer:123"]
    );
    assert_eq!(
        editor_arguments(ReferEditor::Helix, "bib.refer", 7, false),
        vec!["bib.refer:7"]
    );
}

#[test]
fn adding_from_a_string() {
    let mut writer = Writer::new(b"%T kept\n\n".to_vec());
    write_from_cli_or_editor_string("%T  one \n\n%A Brown M.\n%V 3\n", &mut writer).unwrap();
    assert_eq!(
        String::from_utf8(writer.into_inner().unwrap()).unwrap(),
        "%T kept\n\n%T one\n\n%A Brown, M.\n\n"
    );
    let mut writer = Writer::new(vec![]);
    let err =
        write_from_cli_or_editor_string("%T one\n\nno field\n\n%T two\n", &mut writer).unwrap_err();
    assert!(matches!(err.kind(), ErrorKind::NomError(_)));
    assert_eq!(writer.wtr, b"%T one\n\n");
}
