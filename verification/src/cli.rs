//! The decisions of the command line program `rc`: which command a
//! subcommand names, what a command does, which editor the configuration
//! asks for, and the texts that the program shows.
use vstd::prelude::*;
use vstd::string::*;
use vstd::utf8::*;
use crate::error::{Error, ErrorView};
use crate::grammar::{
    fold_line, has_tag, is_field_line, payload, with_field, TAG_ANNOTATION, TAG_AUTHOR,
    TAG_AUTHOR_NP, TAG_BOOK, TAG_DATE, TAG_EDITOR, TAG_GOVERNMENT, TAG_ISSUER, TAG_ISSUE_NUMBER,
    TAG_JOURNAL, TAG_KEYWORDS, TAG_LABEL, TAG_OTHER, TAG_PAGE_NUMBER, TAG_PLACE, TAG_REPORT,
    TAG_SERIES, TAG_TITLE, TAG_VOLUME,
};
use crate::reader::{
    lemma_line_len_bounds, lemma_read_step_bounds, line_len, read_all, read_step, ReadOutcome,
    Reader,
};
use crate::record::{Record, RecordView};
use crate::roundtrip::{line_count, present};
use crate::text::{decimal, decimal_string, is_blank, str_eq, trimmed};
use crate::writer::{fold_lines, line_texts, record_bytes, Writer};

verus! {

/// The arguments of one run of the program.
#[derive(Debug)]
pub enum AppArgs {
    /// No subcommand: show the help, where it is asked for.
    Global { help: bool },
    /// Add an entry to the database.
    Add {
        /// The reference to add is a journal article.
        journal: bool,
        /// The reference to add is a book.
        book: bool,
        /// A string to parse and enter.
        string: Option<String>,
        /// Open an editor to write the entry.
        editor: bool,
    },
    /// Remove an entry based on keywords.
    Remove { keywords: Vec<String> },
    /// Edit an entry based on keywords, or chosen from all entries.
    Edit { keywords: Vec<String>, all: bool },
    /// Count the records of the database.
    Status,
    /// Set up a database.
    Setup,
    /// Clear the database.
    Clear,
}

/// The editors that the program can start.
#[derive(Debug, Clone, Copy, PartialEq, Eq, Structural)]
pub enum ReferEditor {
    Nano,
    Helix,
}

/// The subcommands of the program.
#[derive(Debug, Clone, Copy, PartialEq, Eq, Structural)]
pub enum Command {
    Add,
    Remove,
    Edit,
    Status,
    Setup,
}

/// What the program does for its arguments.
#[derive(Debug, Clone, Copy, PartialEq, Eq, Structural)]
pub enum Action {
    Help,
    Add,
    Remove,
    Edit,
    Status,
    Setup,
    Clear,
}

/// The usage that the help shows after its first line.
pub const USAGE: &'static str = "
Max Brown <euphrasiamax@gmail.com>
https://github.com/euphrasiologist/refer

USAGE:
    rc [-h] [subcommand] [options]

    rc add [-jbe -s <string>] - add an entry to the database
                              - [-j] flag. is a journal
                              - [-b] flag. is a book
                              - [-e] flag. use an editor to add an entry
                              - [-s] option. provide a string as an arg
    rc remove <keywords>      - remove an entry from the database
    rc edit [-a <keywords>]   - edit an entry in the database
                              - [-a] flag. select from all entries
    rc status                 - some stats on the database
    rc setup                  - initialise an empty database. Should 
                                only be run once upon installing.
";

/// The help: the name of the program and its version, then the usage.
pub open spec fn help_text(version: Seq<char>) -> Seq<char> {
    "rc "@ + version + USAGE@
}

/// The help of the program for the given version.
pub fn generate_help_rc(version: &str) -> (r: String)
    ensures
        r@ == help_text(version@),
{
    let mut out = String::new();
    out.append("rc ");
    out.append(version);
    out.append(USAGE);
    assert(out@ =~= help_text(version@));
    out
}

/// The editor that a name stands for: `nano` and `hx` are known.
pub open spec fn editor_named(name: Seq<char>) -> Result<ReferEditor, Seq<char>> {
    if name == "nano"@ {
        Ok(ReferEditor::Nano)
    } else if name == "hx"@ {
        Ok(ReferEditor::Helix)
    } else {
        Err("the refer editor can currently only be either nano or helix"@)
    }
}

/// Whether a result with a message for its error agrees with its model.
pub open spec fn agrees_text<T>(r: Result<T, String>, model: Result<T, Seq<char>>) -> bool {
    match model {
        Ok(v) => r == Ok::<T, String>(v),
        Err(e) => r is Err && r->Err_0@ == e,
    }
}

impl ReferEditor {
    /// The command that starts the editor.
    pub open spec fn command(self) -> Seq<char> {
        match self {
            ReferEditor::Nano => "nano"@,
            ReferEditor::Helix => "hx"@,
        }
    }

    /// The editor of the given name.
    pub fn from_str(s: &str) -> (r: Result<ReferEditor, String>)
        ensures
            agrees_text(r, editor_named(s@)),
    {
        if str_eq(s, "nano") {
            Ok(ReferEditor::Nano)
        } else if str_eq(s, "hx") {
            Ok(ReferEditor::Helix)
        } else {
            Err("the refer editor can currently only be either nano or helix".to_owned())
        }
    }

    /// The command that starts the editor.
    pub fn to_string(&self) -> (r: String)
        ensures
            r@ == self.command(),
    {
        match self {
            ReferEditor::Nano => "nano".to_owned(),
            ReferEditor::Helix => "hx".to_owned(),
        }
    }
}

/// The command that a subcommand names: none without a subcommand, and an
/// error for a name that is no subcommand.
pub open spec fn command_named(name: Option<Seq<char>>) -> Result<Option<Command>, Seq<char>> {
    match name {
        None => Ok(None),
        Some(s) => if s == "add"@ {
            Ok(Some(Command::Add))
        } else if s == "remove"@ {
            Ok(Some(Command::Remove))
        } else if s == "edit"@ {
            Ok(Some(Command::Edit))
        } else if s == "status"@ {
            Ok(Some(Command::Status))
        } else if s == "setup"@ {
            Ok(Some(Command::Setup))
        } else {
            Err("\""@ + s + "\" is an unknown subcommand"@)
        },
    }
}

/// The command that a subcommand names.
pub fn command_of(name: Option<&str>) -> (r: Result<Option<Command>, String>)
    ensures
        agrees_text(r, command_named(name.deep_view())),
{
    match name {
        None => Ok(None),
        Some(s) => {
            if str_eq(s, "add") {
                Ok(Some(Command::Add))
            } else if str_eq(s, "remove") {
                Ok(Some(Command::Remove))
            } else if str_eq(s, "edit") {
                Ok(Some(Command::Edit))
            } else if str_eq(s, "status") {
                Ok(Some(Command::Status))
            } else if str_eq(s, "setup") {
                Ok(Some(Command::Setup))
            } else {
                let mut msg = String::new();
                msg.append("\"");
                msg.append(s);
                msg.append("\" is an unknown subcommand");
                Err(msg)
            }
        },
    }
}

impl AppArgs {
    /// What the program does for its arguments, or the message that it
    /// refuses them with.
    ///
    /// Without a subcommand only the help can be asked for. `add` takes
    /// one option at most; its four options are counted as they are
    /// listed, set or not, so the command is refused. `edit` needs a
    /// keyword or the flag for all entries.
    pub open spec fn planned(self) -> Result<Action, Seq<char>> {
        match self {
            AppArgs::Global { help } => if help {
                Ok(Action::Help)
            } else {
                Err("Unknown argument to rc, pass -h or --help to view help."@)
            },
            AppArgs::Add { .. } => Err(
                "for `rc add`, only one of journal, book, string, or editor may be specifed on the cli"@,
            ),
            AppArgs::Remove { .. } => Ok(Action::Remove),
            AppArgs::Edit { keywords, all } => if keywords@.len() == 0 && !all {
                Err("`rc edit` must have at least one keyword, or pass the -a flag"@)
            } else {
                Ok(Action::Edit)
            },
            AppArgs::Status => Ok(Action::Status),
            AppArgs::Setup => Ok(Action::Setup),
            AppArgs::Clear => Ok(Action::Clear),
        }
    }

    /// What the program does for its arguments, or the message that it
    /// refuses them with.
    pub fn action(&self) -> (r: Result<Action, String>)
        ensures
            agrees_text(r, self.planned()),
    {
        match self {
            AppArgs::Global { help } => {
                if *help {
                    Ok(Action::Help)
                } else {
                    Err("Unknown argument to rc, pass -h or --help to view help.".to_owned())
                }
            },
            AppArgs::Add { journal, book, string, editor } => {
                let mut opts: Vec<bool> = Vec::new();
                opts.push(*journal);
                opts.push(*book);
                opts.push(string.is_some());
                opts.push(*editor);
                if opts.len() > 1 {
                    return Err(
                        "for `rc add`, only one of journal, book, string, or editor may be specifed on the cli".to_owned(),
                    );
                }
                Ok(Action::Add)
            },
            AppArgs::Remove { keywords } => Ok(Action::Remove),
            AppArgs::Edit { keywords, all } => {
                if keywords.len() == 0 && !*all {
                    return Err(
                        "`rc edit` must have at least one keyword, or pass the -a flag".to_owned(),
                    );
                }
                Ok(Action::Edit)
            },
            AppArgs::Status => Ok(Action::Status),
            AppArgs::Setup => Ok(Action::Setup),
            AppArgs::Clear => Ok(Action::Clear),
        }
    }
}

/// What the configuration holds under a key.
#[derive(Debug)]
pub enum ConfigEntry {
    /// The configuration is not well-formed; the message says why.
    Invalid(String),
    /// The key is not there.
    Missing,
    /// The key holds something other than a string.
    NotText,
    /// The key holds this string.
    Text(String),
}

/// The mathematical value of a [`ConfigEntry`].
pub enum ConfigEntryView {
    Invalid(Seq<char>),
    Missing,
    NotText,
    Text(Seq<char>),
}

impl View for ConfigEntry {
    type V = ConfigEntryView;

    open spec fn view(&self) -> ConfigEntryView {
        match self {
            ConfigEntry::Invalid(s) => ConfigEntryView::Invalid(s@),
            ConfigEntry::Missing => ConfigEntryView::Missing,
            ConfigEntry::NotText => ConfigEntryView::NotText,
            ConfigEntry::Text(s) => ConfigEntryView::Text(s@),
        }
    }
}

/// What a TOML document holds under a key at its top level, as the crate
/// `toml` reads the document.
pub uninterp spec fn toml_entry(contents: Seq<char>, key: Seq<char>) -> ConfigEntryView;

/// Parses the document as a `toml::Table` and looks the key up in it with
/// `get`. The result is a function of the document and the key alone: the
/// message of the parser where the document is not well-formed, otherwise
/// whether the key is there and whether it holds a string.
#[verifier::external_body]
fn toml_lookup(contents: &str, key: &str) -> (r: ConfigEntry)
    ensures
        r@ == toml_entry(contents@, key@),
{
    match contents.parse::<toml::Table>() {
        Ok(table) => match table.get(key) {
            Some(value) => match value.as_str() {
                Some(s) => ConfigEntry::Text(s.to_owned()),
                None => ConfigEntry::NotText,
            },
            None => ConfigEntry::Missing,
        },
        Err(e) => ConfigEntry::Invalid(e.to_string()),
    }
}

/// The editor that an entry of the configuration asks for: the editor of
/// the name that it holds, `nano` where it holds no string, the message
/// of the parser where the configuration is not well-formed, and nothing
/// where the entry is not there.
pub open spec fn editor_asked(entry: ConfigEntryView) -> Option<Result<ReferEditor, Seq<char>>> {
    match entry {
        ConfigEntryView::Invalid(msg) => Some(Err(msg)),
        ConfigEntryView::Missing => None,
        ConfigEntryView::NotText => Some(Ok(ReferEditor::Nano)),
        ConfigEntryView::Text(name) => Some(editor_named(name)),
    }
}

/// Whether an optional result agrees with its model.
pub open spec fn agrees_option<T>(
    r: Option<Result<T, String>>,
    model: Option<Result<T, Seq<char>>>,
) -> bool {
    match model {
        None => r is None,
        Some(m) => r is Some && agrees_text(r->Some_0, m),
    }
}

/// The editor that an entry of the configuration asks for.
pub fn editor_from_entry(entry: ConfigEntry) -> (r: Option<Result<ReferEditor, String>>)
    ensures
        agrees_option(r, editor_asked(entry@)),
{
    match entry {
        ConfigEntry::Invalid(msg) => Some(Err(msg)),
        ConfigEntry::Missing => None,
        ConfigEntry::NotText => Some(ReferEditor::from_str("nano")),
        ConfigEntry::Text(name) => Some(ReferEditor::from_str(name.as_str())),
    }
}

/// The editor that the configuration asks for: `nano` where there is no
/// configuration, otherwise what its entry for the editor asks for.
pub fn read_editor(config: Option<&str>) -> (r: Option<Result<ReferEditor, String>>)
    ensures
        config is None ==> r == Some(Ok::<ReferEditor, String>(ReferEditor::Nano)),
        config matches Some(c) ==> agrees_option(r, editor_asked(toml_entry(c@, "editor"@))),
{
    match config {
        None => Some(ReferEditor::from_str("nano")),
        Some(c) => editor_from_entry(toml_lookup(c, "editor")),
    }
}

/// The field line of an answer: the tag and the answer, and nothing for
/// an empty answer.
pub fn tagged_line(tag: &str, answer: &str) -> (r: Option<String>)
    ensures
        answer@.len() == 0 ==> r is None,
        answer@.len() > 0 ==> (r matches Some(line) && line@ == tag@ + answer@),
{
    if answer.is_empty() {
        None
    } else {
        let mut line = String::new();
        line.append(tag);
        line.append(answer);
        Some(line)
    }
}

/// The number of records in the input, a failure that ends the reading
/// counted as one.
#[verifier::rlimit(30)]
pub fn record_count(data: &[u8]) -> (r: usize)
    ensures
        r == read_all(data@, RecordView::empty(), 0).len(),
{
    let mut reader = Reader::new(data);
    let ghost all = read_all(data@, RecordView::empty(), 0);
    let mut count: usize = 0;
    let n = data.len();
    loop
        invariant
            n == data@.len(),
            all == read_all(data@, RecordView::empty(), 0),
            count + reader.remaining().len() <= n,
            count + read_all(reader.remaining(), RecordView::empty(), reader.line()).len()
                == all.len(),
        decreases reader.remaining().len(),
    {
        proof {
            lemma_read_step_bounds(reader.remaining(), RecordView::empty(), reader.line());
        }
        let ghost before = reader.remaining();
        let ghost line = reader.line();
        let ghost step = read_step(before, RecordView::empty(), line);
        match reader.read_record() {
            Ok(None) => {
                return count;
            },
            Ok(Some(_)) => {
                assert(step.outcome is Item);
                count = count + 1;
            },
            Err(_) => {
                assert(step.outcome is Failure);
                return count + 1;
            },
        }
    }
}

/// What the writer makes of a record whose whole canonical text is
/// handed to it as one field line.
#[verifier::opaque]
pub open spec fn as_one_line(r: RecordView) -> Result<RecordView, ErrorView> {
    fold_lines(seq![r.text()], RecordView::empty(), 0)
}

/// What adding the records of a text to the writer puts out, and the
/// error that ends it where there is one. Each record of the text is read,
/// and its canonical text is handed to the writer as the one field line of
/// a record.
pub open spec fn rewritten(bytes: Seq<u8>, line: nat) -> (Seq<u8>, Option<ErrorView>)
    decreases bytes.len(),
{
    let step = read_step(bytes, RecordView::empty(), line);
    match step.outcome {
        ReadOutcome::End => (Seq::empty(), None),
        ReadOutcome::Failure(e) => (Seq::empty(), Some(e)),
        ReadOutcome::Item(r) => match as_one_line(r) {
            Err(e) => (Seq::empty(), Some(e)),
            Ok(v) => {
                proof {
                    lemma_read_step_bounds(bytes, RecordView::empty(), line);
                }
                let next = rewritten(step.rest, step.line);
                (record_bytes(v) + next.0, next.1)
            },
        },
    }
}

fn write_text_of(record: &Record, writer: &mut Writer) -> (r: Result<(), Error>)
    ensures
        match as_one_line(record@) {
            Ok(v) => r is Ok && final(writer).wtr@ == old(writer).wtr@ + record_bytes(v),
            Err(e) => r is Err && r->Err_0@ == e && final(writer).wtr@ == old(writer).wtr@,
        },
{
    let text = record.to_string();
    let mut lines: Vec<&str> = Vec::new();
    lines.push(text.as_str());
    proof {
        reveal(as_one_line);
        assert(line_texts(lines@) =~= seq![record@.text()]);
    }
    writer.write_record(lines)
}

/// Adds the records of a text to the writer, one after the other, until
/// the text ends or a record is refused.
#[verifier::rlimit(30)]
pub fn write_from_cli_or_editor_string(string: &str, writer: &mut Writer) -> (r: Result<
    (),
    Error,
>)
    ensures
        final(writer).wtr@ == old(writer).wtr@ + rewritten(encode_utf8(string@), 0).0,
        match rewritten(encode_utf8(string@), 0).1 {
            None => r is Ok,
            Some(e) => r is Err && r->Err_0@ == e,
        },
{
    let mut reader = Reader::new(string.as_bytes());
    let ghost goal = rewritten(encode_utf8(string@), 0);
    assert(writer.wtr@ + goal.0 =~= old(writer).wtr@ + goal.0);
    loop
        invariant
            goal == rewritten(encode_utf8(string@), 0),
            writer.wtr@ + rewritten(reader.remaining(), reader.line()).0 == old(writer).wtr@
                + goal.0,
            rewritten(reader.remaining(), reader.line()).1 == goal.1,
        decreases reader.remaining().len(),
    {
        proof {
            lemma_read_step_bounds(reader.remaining(), RecordView::empty(), reader.line());
        }
        let ghost before = writer.wtr@;
        let ghost here = rewritten(reader.remaining(), reader.line());
        let ghost step = read_step(reader.remaining(), RecordView::empty(), reader.line());
        match reader.read_record() {
            Ok(None) => {
                assert(here.0 =~= Seq::<u8>::empty());
                assert(before + here.0 =~= before);
                return writer.flush();
            },
            Err(e) => {
                assert(here.0 =~= Seq::<u8>::empty());
                assert(before + here.0 =~= before);
                return Err(e);
            },
            Ok(Some(record)) => {
                let ghost next = rewritten(step.rest, step.line);
                let ghost folded = as_one_line(record@);
                match write_text_of(&record, writer) {
                    Ok(_) => {
                        assert(here.0 == record_bytes(folded->Ok_0) + next.0);
                        assert(before + (record_bytes(folded->Ok_0) + next.0) =~= before
                            + record_bytes(folded->Ok_0) + next.0);
                    },
                    Err(e) => {
                        assert(here.0 =~= Seq::<u8>::empty());
                        assert(before + here.0 =~= before);
                        return Err(e);
                    },
                }
            },
        }
    }
}

/// The title of a record: empty where it has none.
pub open spec fn title_of(r: RecordView) -> Seq<char> {
    match r.title {
        Some(t) => t,
        None => Seq::empty(),
    }
}

/// The titles before the result of what follows.
pub open spec fn titles_then(
    titles: Seq<Seq<char>>,
    rest: Result<Seq<Seq<char>>, ErrorView>,
) -> Result<Seq<Seq<char>>, ErrorView> {
    match rest {
        Ok(more) => Ok(titles + more),
        Err(e) => Err(e),
    }
}

/// The titles of the records of the input, in order and without the empty
/// ones, or the failure that ends the reading.
pub open spec fn titles(bytes: Seq<u8>, line: nat) -> Result<Seq<Seq<char>>, ErrorView>
    decreases bytes.len(),
{
    let step = read_step(bytes, RecordView::empty(), line);
    match step.outcome {
        ReadOutcome::End => Ok(Seq::empty()),
        ReadOutcome::Failure(e) => Err(e),
        ReadOutcome::Item(r) => {
            proof {
                lemma_read_step_bounds(bytes, RecordView::empty(), line);
            }
            titles_then(
                if title_of(r).len() > 0 {
                    seq![title_of(r)]
                } else {
                    Seq::empty()
                },
                titles(step.rest, step.line),
            )
        },
    }
}

/// The titles of the records of the input.
#[verifier::rlimit(30)]
pub fn record_titles(data: &[u8]) -> (r: Result<Vec<String>, Error>)
    ensures
        match titles(data@, 0) {
            Ok(t) => r is Ok && r->Ok_0.deep_view() == t,
            Err(e) => r is Err && r->Err_0@ == e,
        },
{
    let mut reader = Reader::new(data);
    let mut out: Vec<String> = Vec::new();
    let ghost goal = titles(data@, 0);
    assert(out.deep_view() =~= Seq::<Seq<char>>::empty());
    assert(titles_then(out.deep_view(), goal) == goal) by {
        if goal is Ok {
            assert(out.deep_view() + goal->Ok_0 =~= goal->Ok_0);
        }
    }
    loop
        invariant
            goal == titles(data@, 0),
            titles_then(out.deep_view(), titles(reader.remaining(), reader.line())) == goal,
        decreases reader.remaining().len(),
    {
        proof {
            lemma_read_step_bounds(reader.remaining(), RecordView::empty(), reader.line());
        }
        let ghost so_far = out.deep_view();
        let ghost step = read_step(reader.remaining(), RecordView::empty(), reader.line());
        match reader.read_record() {
            Ok(None) => {
                assert(so_far + Seq::<Seq<char>>::empty() =~= so_far);
                return Ok(out);
            },
            Err(e) => {
                return Err(e);
            },
            Ok(Some(record)) => {
                let ghost next = titles(step.rest, step.line);
                match record.title {
                    Some(t) => {
                        if !t.as_str().is_empty() {
                            out.push(t);
                            proof {
                                assert(out.deep_view() =~= so_far + seq![t@]);
                                if next is Ok {
                                    assert(so_far + (seq![t@] + next->Ok_0) =~= so_far + seq![t@]
                                        + next->Ok_0);
                                }
                            }
                        } else {
                            proof {
                                if next is Ok {
                                    assert(Seq::<Seq<char>>::empty() + next->Ok_0 =~= next->Ok_0);
                                }
                            }
                        }
                    },
                    None => {
                        proof {
                            if next is Ok {
                                assert(Seq::<Seq<char>>::empty() + next->Ok_0 =~= next->Ok_0);
                            }
                        }
                    },
                }
            },
        }
    }
}

/// The arguments that the editor is started with to open the database at
/// a line. Nano takes the line after a plus sign, before the location
/// when an entry was chosen from all and after it otherwise; Helix takes
/// the location, a colon and the line.
pub open spec fn editor_args(
    editor: ReferEditor,
    location: Seq<char>,
    line: nat,
    all: bool,
) -> Seq<Seq<char>> {
    match editor {
        ReferEditor::Nano => if all {
            seq!["+"@ + decimal(line), location]
        } else {
            seq![location + " +"@ + decimal(line)]
        },
        ReferEditor::Helix => seq![location + ":"@ + decimal(line)],
    }
}

/// The arguments that the editor is started with to open the database at
/// a line.
pub fn editor_arguments(editor: ReferEditor, location: &str, line_no: u64, all: bool) -> (r: Vec<
    String,
>)
    ensures
        r.deep_view() == editor_args(editor, location@, line_no as nat, all),
{
    let number = decimal_string(line_no);
    let mut out: Vec<String> = Vec::new();
    match editor {
        ReferEditor::Nano => {
            if all {
                let mut first = String::new();
                first.append("+");
                first.append(number.as_str());
                out.push(first);
                out.push(location.to_owned());
            } else {
                let mut only = String::new();
                only.append(location);
                only.append(" +");
                only.append(number.as_str());
                out.push(only);
            }
        },
        ReferEditor::Helix => {
            let mut only = String::new();
            only.append(location);
            only.append(":");
            only.append(number.as_str());
            out.push(only);
        },
    }
    assert(out.deep_view() =~= editor_args(editor, location@, line_no as nat, all));
    out
}

/// A line that the grammar accepts has a tag, and adds one line to the
/// canonical text at most.
proof fn lemma_with_field_count(acc: RecordView, letter: u8, v: Seq<char>)
    ensures
        line_count(with_field(acc, letter, v)) <= line_count(acc) + 1,
{
    let next = with_field(acc, letter, v);
    if letter == TAG_BOOK {
        assert(next == (RecordView { book: Some(v), ..acc }));
        assert(present(next.book) <= present(acc.book) + 1);
    } else if letter == TAG_PLACE {
        assert(next == (RecordView { place: Some(v), ..acc }));
        assert(present(next.place) <= present(acc.place) + 1);
    } else if letter == TAG_DATE {
        assert(next == (RecordView { date: Some(v), ..acc }));
        assert(present(next.date) <= present(acc.date) + 1);
    } else if letter == TAG_GOVERNMENT {
        assert(next == (RecordView { government: Some(v), ..acc }));
        assert(present(next.government) <= present(acc.government) + 1);
    } else if letter == TAG_ISSUER {
        assert(next == (RecordView { issuer: Some(v), ..acc }));
        assert(present(next.issuer) <= present(acc.issuer) + 1);
    } else if letter == TAG_JOURNAL {
        assert(next == (RecordView { journal: Some(v), ..acc }));
        assert(present(next.journal) <= present(acc.journal) + 1);
    } else if letter == TAG_LABEL {
        assert(next == (RecordView { label: Some(v), ..acc }));
        assert(present(next.label) <= present(acc.label) + 1);
    } else if letter == TAG_ISSUE_NUMBER {
        assert(next == (RecordView { issue_number: Some(v), ..acc }));
        assert(present(next.issue_number) <= present(acc.issue_number) + 1);
    } else if letter == TAG_OTHER {
        assert(next == (RecordView { other: Some(v), ..acc }));
        assert(present(next.other) <= present(acc.other) + 1);
    } else if letter == TAG_PAGE_NUMBER {
        assert(next == (RecordView { page_number: Some(v), ..acc }));
        assert(present(next.page_number) <= present(acc.page_number) + 1);
    } else if letter == TAG_AUTHOR_NP {
        assert(next == (RecordView { author_np: Some(v), ..acc }));
        assert(present(next.author_np) <= present(acc.author_np) + 1);
    } else if letter == TAG_REPORT {
        assert(next == (RecordView { report: Some(v), ..acc }));
        assert(present(next.report) <= present(acc.report) + 1);
    } else if letter == TAG_SERIES {
        assert(next == (RecordView { series: Some(v), ..acc }));
        assert(present(next.series) <= present(acc.series) + 1);
    } else if letter == TAG_TITLE {
        assert(next == (RecordView { title: Some(v), ..acc }));
        assert(present(next.title) <= present(acc.title) + 1);
    } else if letter == TAG_VOLUME {
        assert(next == (RecordView { volume: Some(v), ..acc }));
        assert(present(next.volume) <= present(acc.volume) + 1);
    } else if letter == TAG_ANNOTATION {
        assert(next == (RecordView { annotation: Some(v), ..acc }));
        assert(present(next.annotation) <= present(acc.annotation) + 1);
    }
}

proof fn lemma_fold_line_count(line: Seq<u8>, acc: RecordView, n: nat)
    requires
        fold_line(line, acc, n) is Ok,
    ensures
        line_count(fold_line(line, acc, n)->Ok_0) <= line_count(acc) + 1,
        line.len() >= 3,
{
    let next = fold_line(line, acc, n)->Ok_0;
    if has_tag(line, TAG_AUTHOR) {
        assert(next.author.len() == acc.author.len() + 1);
    } else if has_tag(line, TAG_KEYWORDS) {
        assert(next == (RecordView { keywords: next.keywords, ..acc }));
    } else if has_tag(line, TAG_EDITOR) {
        assert(next.editor.len() == acc.editor.len() + 1);
    } else {
        assert(is_field_line(line));
        let v = trimmed(decode_utf8(payload(line)));
        if v.len() > 0 {
            lemma_with_field_count(acc, line[1], v);
        }
    }
}

/// The canonical text of a record that is read has three bytes of input
/// for each of its lines at least.
proof fn lemma_pull_lines(bytes: Seq<u8>, acc: RecordView, n: nat)
    ensures
        read_step(bytes, acc, n).outcome matches ReadOutcome::Item(r) ==> 3 * line_count(r) <= 3
            * line_count(acc) + bytes.len() - read_step(bytes, acc, n).rest.len(),
    decreases bytes.len(),
{
    if bytes.len() > 0 {
        lemma_line_len_bounds(bytes);
        let k = line_len(bytes) as int;
        let text = bytes.subrange(0, k);
        let rest = bytes.subrange(k, bytes.len() as int);
        lemma_read_step_bounds(bytes, acc, n);
        if !valid_utf8(text) {
        } else if is_blank(decode_utf8(text)) {
            if acc.is_empty() {
                lemma_read_step_bounds(rest, acc, n + 1);
                lemma_pull_lines(rest, acc, n + 1);
            }
        } else {
            match fold_line(text, acc, n + 1) {
                Ok(next) => {
                    lemma_fold_line_count(text, acc, n + 1);
                    lemma_read_step_bounds(rest, next, n + 1);
                    lemma_pull_lines(rest, next, n + 1);
                },
                Err(e) => {},
            }
        }
    }
}

/// The first record with the given title, and the line at which it
/// starts as the program counts: the lines of the canonical texts of the
/// records before it, and two more for each of them. Nothing where no
/// record has the title; the failure that ends the reading where there is
/// one before.
pub open spec fn title_line(bytes: Seq<u8>, line: nat, title: Seq<char>, so_far: nat) -> Result<
    Option<(nat, RecordView)>,
    ErrorView,
>
    decreases bytes.len(),
{
    let step = read_step(bytes, RecordView::empty(), line);
    match step.outcome {
        ReadOutcome::End => Ok(None),
        ReadOutcome::Failure(e) => Err(e),
        ReadOutcome::Item(r) => if title_of(r) == title {
            Ok(Some((so_far, r)))
        } else {
            proof {
                lemma_read_step_bounds(bytes, RecordView::empty(), line);
            }
            title_line(step.rest, step.line, title, so_far + line_count(r) + 2)
        },
    }
}

fn present_count(value: &Option<String>) -> (r: usize)
    ensures
        r == present(value.deep_view()),
{
    if value.is_some() {
        1
    } else {
        0
    }
}

fn canonical_lines(record: &Record) -> (r: usize)
    requires
        line_count(record@) <= usize::MAX,
    ensures
        r == line_count(record@),
{
    let mut n = record.author.len();
    n = n + present_count(&record.book);
    n = n + present_count(&record.place);
    n = n + present_count(&record.date);
    n = n + record.editor.len();
    n = n + present_count(&record.government);
    n = n + present_count(&record.issuer);
    n = n + present_count(&record.journal);
    n = n + (if record.keywords.is_some() {
        1
    } else {
        0
    });
    n = n + present_count(&record.label);
    n = n + present_count(&record.issue_number);
    n = n + present_count(&record.other);
    n = n + present_count(&record.page_number);
    n = n + present_count(&record.author_np);
    n = n + present_count(&record.report);
    n = n + present_count(&record.series);
    n = n + present_count(&record.title);
    n = n + present_count(&record.volume);
    n = n + present_count(&record.annotation);
    n
}

/// The first record with the given title, and the line at which it
/// starts as the program counts.
#[verifier::rlimit(30)]
pub fn find_title(data: &[u8], title: &str) -> (r: Result<Option<(usize, Record)>, Error>)
    ensures
        match title_line(data@, 0, title@, 0) {
            Ok(Some(found)) => r matches Ok(Some(pair)) && pair.0 == found.0 && pair.1@
                == found.1,
            Ok(None) => r matches Ok(None),
            Err(e) => r is Err && r->Err_0@ == e,
        },
{
    let mut reader = Reader::new(data);
    let ghost goal = title_line(data@, 0, title@, 0);
    let n = data.len();
    let mut line_no: usize = 0;
    loop
        invariant
            n == data@.len(),
            goal == title_line(data@, 0, title@, 0),
            title_line(reader.remaining(), reader.line(), title@, line_no as nat) == goal,
            line_no + reader.remaining().len() <= n,
        decreases reader.remaining().len(),
    {
        proof {
            lemma_read_step_bounds(reader.remaining(), RecordView::empty(), reader.line());
            lemma_pull_lines(reader.remaining(), RecordView::empty(), reader.line());
        }
        match reader.read_record() {
            Ok(None) => {
                return Ok(None);
            },
            Err(e) => {
                return Err(e);
            },
            Ok(Some(record)) => {
                proof {
                    reveal_strlit("");
                    assert(""@ =~= Seq::<char>::empty());
                    assert(line_count(RecordView::empty()) == 0);
                    assert(line_count(record@) >= 1);
                }
                let found = match &record.title {
                    Some(t) => str_eq(t.as_str(), title),
                    None => str_eq("", title),
                };
                if found {
                    return Ok(Some((line_no, record)));
                }
                // two more because there is a line break between records
                line_no = line_no + canonical_lines(&record) + 2;
            },
        }
    }
}

/// Whether a text is one of the keywords of a record.
pub open spec fn is_keyword_of(r: RecordView, word: Seq<char>) -> bool {
    r.keywords matches Some(k) && k.contains(word)
}

/// Whether a record has each of the wanted keywords.
pub open spec fn has_keywords(r: RecordView, wanted: Seq<Seq<char>>) -> bool {
    forall|i: int| 0 <= i < wanted.len() ==> is_keyword_of(r, #[trigger] wanted[i])
}

fn is_record_keyword(record: &Record, word: &str) -> (r: bool)
    ensures
        r == is_keyword_of(record@, word@),
{
    match &record.keywords {
        None => false,
        Some(k) => {
            let mut j: usize = 0;
            while j < k.len()
                invariant
                    j <= k@.len(),
                    record@.keywords == Some(k.deep_view()),
                    forall|i: int| 0 <= i < j ==> k.deep_view()[i] != word@,
                decreases k@.len() - j,
            {
                if str_eq(k[j].as_str(), word) {
                    assert(k.deep_view()[j as int] == word@);
                    return true;
                }
                j = j + 1;
            }
            false
        },
    }
}

/// Tells whether a record has each of the wanted keywords.
pub fn record_has_keywords(record: &Record, keywords: &Vec<String>) -> (r: bool)
    ensures
        r == has_keywords(record@, keywords.deep_view()),
{
    let mut i: usize = 0;
    while i < keywords.len()
        invariant
            i <= keywords@.len(),
            forall|j: int| 0 <= j < i ==> is_keyword_of(record@, #[trigger] keywords.deep_view()[j]),
        decreases keywords@.len() - i,
    {
        if !is_record_keyword(record, keywords[i].as_str()) {
            assert(!is_keyword_of(record@, keywords.deep_view()[i as int]));
            return false;
        }
        i = i + 1;
    }
    true
}


/// The records before the result of what follows.
pub open spec fn records_then(
    records: Seq<RecordView>,
    rest: Result<Seq<RecordView>, ErrorView>,
) -> Result<Seq<RecordView>, ErrorView> {
    match rest {
        Ok(more) => Ok(records + more),
        Err(e) => Err(e),
    }
}

/// The records of the input that have each of the wanted keywords, in
/// order, or the failure that ends the reading.
pub open spec fn with_keywords(bytes: Seq<u8>, line: nat, wanted: Seq<Seq<char>>) -> Result<
    Seq<RecordView>,
    ErrorView,
>
    decreases bytes.len(),
{
    let step = read_step(bytes, RecordView::empty(), line);
    match step.outcome {
        ReadOutcome::End => Ok(Seq::empty()),
        ReadOutcome::Failure(e) => Err(e),
        ReadOutcome::Item(r) => {
            proof {
                lemma_read_step_bounds(bytes, RecordView::empty(), line);
            }
            records_then(
                if has_keywords(r, wanted) {
                    seq![r]
                } else {
                    Seq::empty()
                },
                with_keywords(step.rest, step.line, wanted),
            )
        },
    }
}

/// The records of the input that have each of the wanted keywords.
#[verifier::rlimit(30)]
pub fn keyword_matches(data: &[u8], keywords: &Vec<String>) -> (r: Result<Vec<Record>, Error>)
    ensures
        match with_keywords(data@, 0, keywords.deep_view()) {
            Ok(found) => r is Ok && r->Ok_0.deep_view() == found,
            Err(e) => r is Err && r->Err_0@ == e,
        },
{
    let mut reader = Reader::new(data);
    let mut out: Vec<Record> = Vec::new();
    let ghost wanted = keywords.deep_view();
    let ghost goal = with_keywords(data@, 0, wanted);
    assert(out.deep_view() =~= Seq::<RecordView>::empty());
    assert(records_then(out.deep_view(), goal) == goal) by {
        if goal is Ok {
            assert(out.deep_view() + goal->Ok_0 =~= goal->Ok_0);
        }
    }
    loop
        invariant
            wanted == keywords.deep_view(),
            goal == with_keywords(data@, 0, wanted),
            records_then(out.deep_view(), with_keywords(reader.remaining(), reader.line(), wanted))
                == goal,
        decreases reader.remaining().len(),
    {
        proof {
            lemma_read_step_bounds(reader.remaining(), RecordView::empty(), reader.line());
        }
        let ghost so_far = out.deep_view();
        let ghost step = read_step(reader.remaining(), RecordView::empty(), reader.line());
        match reader.read_record() {
            Ok(None) => {
                assert(so_far + Seq::<RecordView>::empty() =~= so_far);
                return Ok(out);
            },
            Err(e) => {
                return Err(e);
            },
            Ok(Some(record)) => {
                let ghost next = with_keywords(step.rest, step.line, wanted);
                if record_has_keywords(&record, keywords) {
                    let ghost v = record@;
                    out.push(record);
                    proof {
                        assert(out.deep_view() =~= so_far + seq![v]);
                        if next is Ok {
                            assert(so_far + (seq![v] + next->Ok_0) =~= so_far + seq![v]
                                + next->Ok_0);
                        }
                    }
                } else {
                    proof {
                        if next is Ok {
                            assert(Seq::<RecordView>::empty() + next->Ok_0 =~= next->Ok_0);
                        }
                    }
                }
            },
        }
    }
}

} // verus!
