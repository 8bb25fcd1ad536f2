//! The record, its authors, and its canonical text.
use vstd::prelude::*;
use vstd::string::*;
use crate::error::{agrees, Error, ErrorKind, ErrorView};

verus! {

/// The type of a record: only books and journal articles can be rendered.
#[derive(Debug, Clone, Copy, PartialEq, Eq, Structural)]
pub enum RecordType {
    Book,
    Journal,
}

/// One author: the surname, and the remaining names joined by single spaces.
#[derive(Debug, PartialEq, Clone)]
pub struct Author {
    /// Last name
    pub last: String,
    /// And the rest of the form: A. B. C.
    pub rest: String,
}

/// The mathematical value of an [`Author`].
pub struct AuthorView {
    pub last: Seq<char>,
    pub rest: Seq<char>,
}

impl View for Author {
    type V = AuthorView;

    open spec fn view(&self) -> AuthorView {
        AuthorView { last: self.last@, rest: self.rest@ }
    }
}

impl DeepView for Author {
    type V = AuthorView;

    open spec fn deep_view(&self) -> AuthorView {
        self@
    }
}

impl AuthorView {
    /// The field line of the author, without the line end.
    pub open spec fn line(self) -> Seq<char> {
        "%A "@ + self.last + ", "@ + self.rest
    }
}

impl Author {
    /// The field line of the author, without the line end.
    pub fn to_string(&self) -> (r: String)
        ensures
            r@ == self@.line(),
    {
        let mut out = String::new();
        out.append("%A ");
        out.append(self.last.as_str());
        out.append(", ");
        out.append(self.rest.as_str());
        assert(out@ =~= self@.line());
        out
    }
}

/// A refer record.
#[derive(Debug, PartialEq, Clone)]
pub struct Record {
    /// The author list
    pub author: Vec<Author>,
    /// The name of the book
    pub book: Option<String>,
    /// The place
    pub place: Option<String>,
    /// Date of publication
    pub date: Option<String>,
    /// The editors
    pub editor: Vec<String>,
    /// US Government ordering number.
    pub government: Option<String>,
    /// The publisher (issuer)
    pub issuer: Option<String>,
    /// For an article in a journal, the name of the journal.
    pub journal: Option<String>,
    /// Keywords to be used for searching.
    pub keywords: Option<Vec<String>>,
    /// Label.
    pub label: Option<String>,
    /// Journal issue number
    pub issue_number: Option<String>,
    /// Page number. A range of pages can be specified as m-n.
    pub page_number: Option<String>,
    /// Other information. This is usually printed at the end of the reference.
    pub other: Option<String>,
    /// The name of the author, if the author is not a person.
    pub author_np: Option<String>,
    /// Technical report number.
    pub report: Option<String>,
    /// Series name.
    pub series: Option<String>,
    /// Title. For an article in a book or journal, the title of the article.
    pub title: Option<String>,
    /// Volume number of the journal or book.
    pub volume: Option<String>,
    /// Annotation.
    pub annotation: Option<String>,
}

/// The mathematical value of a [`Record`].
pub struct RecordView {
    pub author: Seq<AuthorView>,
    pub book: Option<Seq<char>>,
    pub place: Option<Seq<char>>,
    pub date: Option<Seq<char>>,
    pub editor: Seq<Seq<char>>,
    pub government: Option<Seq<char>>,
    pub issuer: Option<Seq<char>>,
    pub journal: Option<Seq<char>>,
    pub keywords: Option<Seq<Seq<char>>>,
    pub label: Option<Seq<char>>,
    pub issue_number: Option<Seq<char>>,
    pub page_number: Option<Seq<char>>,
    pub other: Option<Seq<char>>,
    pub author_np: Option<Seq<char>>,
    pub report: Option<Seq<char>>,
    pub series: Option<Seq<char>>,
    pub title: Option<Seq<char>>,
    pub volume: Option<Seq<char>>,
    pub annotation: Option<Seq<char>>,
}

impl View for Record {
    type V = RecordView;

    open spec fn view(&self) -> RecordView {
        RecordView {
            author: self.author.deep_view(),
            book: self.book.deep_view(),
            place: self.place.deep_view(),
            date: self.date.deep_view(),
            editor: self.editor.deep_view(),
            government: self.government.deep_view(),
            issuer: self.issuer.deep_view(),
            journal: self.journal.deep_view(),
            keywords: self.keywords.deep_view(),
            label: self.label.deep_view(),
            issue_number: self.issue_number.deep_view(),
            page_number: self.page_number.deep_view(),
            other: self.other.deep_view(),
            author_np: self.author_np.deep_view(),
            report: self.report.deep_view(),
            series: self.series.deep_view(),
            title: self.title.deep_view(),
            volume: self.volume.deep_view(),
            annotation: self.annotation.deep_view(),
        }
    }
}

impl DeepView for Record {
    type V = RecordView;

    open spec fn deep_view(&self) -> RecordView {
        self@
    }
}

/// The line of a single-valued field: nothing when the field is absent.
pub open spec fn field_line(tag: Seq<char>, value: Option<Seq<char>>) -> Seq<char> {
    match value {
        Some(v) => tag + v + "\n"@,
        None => Seq::empty(),
    }
}

/// One line per author, in order.
pub open spec fn author_lines(authors: Seq<AuthorView>) -> Seq<char>
    decreases authors.len(),
{
    if authors.len() == 0 {
        Seq::empty()
    } else {
        authors[0].line() + "\n"@ + author_lines(authors.drop_first())
    }
}

/// One line per editor, in order.
pub open spec fn editor_lines(editors: Seq<Seq<char>>) -> Seq<char>
    decreases editors.len(),
{
    if editors.len() == 0 {
        Seq::empty()
    } else {
        "%E "@ + editors[0] + "\n"@ + editor_lines(editors.drop_first())
    }
}

/// The parts with one separator between each two neighbours.
pub open spec fn joined(parts: Seq<Seq<char>>, sep: Seq<char>) -> Seq<char>
    decreases parts.len(),
{
    if parts.len() == 0 {
        Seq::empty()
    } else if parts.len() == 1 {
        parts[0]
    } else {
        parts[0] + sep + joined(parts.drop_first(), sep)
    }
}

/// The keyword line: all keywords on one line, nothing when the field is absent.
pub open spec fn keyword_line(keywords: Option<Seq<Seq<char>>>) -> Seq<char> {
    match keywords {
        Some(k) => "%K "@ + joined(k, " "@) + "\n"@,
        None => Seq::empty(),
    }
}

impl RecordView {
    /// The record in which every field is absent.
    pub open spec fn empty() -> RecordView {
        RecordView {
            author: Seq::empty(),
            book: None,
            place: None,
            date: None,
            editor: Seq::empty(),
            government: None,
            issuer: None,
            journal: None,
            keywords: None,
            label: None,
            issue_number: None,
            page_number: None,
            other: None,
            author_np: None,
            report: None,
            series: None,
            title: None,
            volume: None,
            annotation: None,
        }
    }

    /// Whether every field is absent.
    pub open spec fn is_empty(self) -> bool {
        &&& self.author.len() == 0
        &&& self.book is None
        &&& self.place is None
        &&& self.date is None
        &&& self.editor.len() == 0
        &&& self.government is None
        &&& self.issuer is None
        &&& self.journal is None
        &&& self.keywords is None
        &&& self.label is None
        &&& self.issue_number is None
        &&& self.page_number is None
        &&& self.other is None
        &&& self.author_np is None
        &&& self.report is None
        &&& self.series is None
        &&& self.title is None
        &&& self.volume is None
        &&& self.annotation is None
    }

    /// Book when only the book title is present, journal when only the
    /// journal name is; an error when both are or neither is.
    pub open spec fn record_type(self) -> Result<RecordType, ErrorView> {
        if self.book is Some && self.journal is Some {
            Err(ErrorView::RecordType("ambiguous: Book and Journal both set"@))
        } else if self.book is Some {
            Ok(RecordType::Book)
        } else if self.journal is Some {
            Ok(RecordType::Journal)
        } else {
            Err(ErrorView::RecordType("undetermined: Neither Book nor Journal are set"@))
        }
    }

    /// The canonical text: the authors, then each present field on a line
    /// of its own, in the fixed order of the format.
    pub open spec fn text(self) -> Seq<char> {
        author_lines(self.author) + field_line("%B "@, self.book) + field_line(
            "%C "@,
            self.place,
        ) + field_line("%D "@, self.date) + editor_lines(self.editor) + field_line(
            "%G "@,
            self.government,
        ) + field_line("%I "@, self.issuer) + field_line("%J "@, self.journal) + keyword_line(
            self.keywords,
        ) + field_line("%L "@, self.label) + field_line("%N "@, self.issue_number) + field_line(
            "%O "@,
            self.other,
        ) + field_line("%P "@, self.page_number) + field_line("%Q "@, self.author_np)
            + field_line("%R "@, self.report) + field_line("%S "@, self.series) + field_line(
            "%T "@,
            self.title,
        ) + field_line("%V "@, self.volume) + field_line("%X "@, self.annotation)
    }
}

/// The empty record is the only record that is empty.
pub proof fn lemma_empty_record(r: RecordView)
    ensures
        r.is_empty() <==> r == RecordView::empty(),
{
    if r.is_empty() {
        assert(r.author =~= Seq::empty());
        assert(r.editor =~= Seq::empty());
    }
}

fn push_field(out: &mut String, tag: &str, value: &Option<String>)
    ensures
        final(out)@ == old(out)@ + field_line(tag@, value.deep_view()),
{
    match value {
        Some(v) => {
            out.append(tag);
            out.append(v.as_str());
            out.append("\n");
            assert(out@ =~= old(out)@ + field_line(tag@, value.deep_view()));
        },
        None => {
            assert(out@ =~= old(out)@ + field_line(tag@, value.deep_view()));
        },
    }
}

fn push_authors(out: &mut String, authors: &Vec<Author>)
    ensures
        final(out)@ == old(out)@ + author_lines(authors.deep_view()),
{
    let ghost all = authors.deep_view();
    let mut i: usize = 0;
    assert(all.skip(0) =~= all);
    while i < authors.len()
        invariant
            i <= authors.len(),
            all == authors.deep_view(),
            out@ + author_lines(all.skip(i as int)) == old(out)@ + author_lines(all),
        decreases authors.len() - i,
    {
        let line = authors[i].to_string();
        proof {
            let rest = all.skip(i as int);
            assert(rest.len() > 0);
            assert(rest[0] == authors[i as int]@);
            assert(rest.drop_first() =~= all.skip(i + 1));
            assert(out@ + line@ + "\n"@ + author_lines(all.skip(i + 1)) =~= out@ + author_lines(
                rest,
            ));
        }
        out.append(line.as_str());
        out.append("\n");
        i = i + 1;
    }
    proof {
        assert(all.skip(i as int).len() == 0);
        assert(out@ + author_lines(all.skip(i as int)) =~= out@);
    }
}

fn push_editors(out: &mut String, editors: &Vec<String>)
    ensures
        final(out)@ == old(out)@ + editor_lines(editors.deep_view()),
{
    let ghost all = editors.deep_view();
    let mut i: usize = 0;
    assert(all.skip(0) =~= all);
    while i < editors.len()
        invariant
            i <= editors.len(),
            all == editors.deep_view(),
            out@ + editor_lines(all.skip(i as int)) == old(out)@ + editor_lines(all),
        decreases editors.len() - i,
    {
        proof {
            let rest = all.skip(i as int);
            assert(rest.len() > 0);
            assert(rest[0] == editors[i as int]@);
            assert(rest.drop_first() =~= all.skip(i + 1));
            assert(out@ + "%E "@ + editors[i as int]@ + "\n"@ + editor_lines(all.skip(i + 1))
                =~= out@ + editor_lines(rest));
        }
        out.append("%E ");
        out.append(editors[i].as_str());
        out.append("\n");
        i = i + 1;
    }
    proof {
        assert(all.skip(i as int).len() == 0);
        assert(out@ + editor_lines(all.skip(i as int)) =~= out@);
    }
}

/// Appends the parts with one separator between each two neighbours.
pub(crate) fn push_joined(out: &mut String, parts: &Vec<String>, sep: &str)
    ensures
        final(out)@ == old(out)@ + joined(parts.deep_view(), sep@),
{
    let ghost all = parts.deep_view();
    let n = parts.len();
    if n == 0 {
        assert(out@ =~= old(out)@ + joined(all, sep@));
        return ;
    }
    let mut i: usize = 0;
    assert(all.skip(0) =~= all);
    while i + 1 < n
        invariant
            n == parts.len(),
            n > 0,
            i < n,
            all == parts.deep_view(),
            out@ + joined(all.skip(i as int), sep@) == old(out)@ + joined(all, sep@),
        decreases n - i,
    {
        proof {
            let rest = all.skip(i as int);
            assert(rest.len() > 1);
            assert(rest[0] == parts[i as int]@);
            assert(rest.drop_first() =~= all.skip(i + 1));
            assert(out@ + parts[i as int]@ + sep@ + joined(all.skip(i + 1), sep@) =~= out@
                + joined(rest, sep@));
        }
        out.append(parts[i].as_str());
        out.append(sep);
        i = i + 1;
    }
    proof {
        let rest = all.skip(i as int);
        assert(rest.len() == 1);
        assert(rest[0] == parts[i as int]@);
    }
    out.append(parts[i].as_str());
}

fn push_keywords(out: &mut String, keywords: &Option<Vec<String>>)
    ensures
        final(out)@ == old(out)@ + keyword_line(keywords.deep_view()),
{
    match keywords {
        Some(k) => {
            out.append("%K ");
            push_joined(out, k, " ");
            out.append("\n");
            assert(out@ =~= old(out)@ + keyword_line(keywords.deep_view()));
        },
        None => {
            assert(out@ =~= old(out)@ + keyword_line(keywords.deep_view()));
        },
    }
}

impl Record {
    /// Whether every field of the record is absent.
    pub fn is_empty(&self) -> (r: bool)
        ensures
            r == self@.is_empty(),
    {
        self.author.len() == 0 && self.book.is_none() && self.place.is_none()
            && self.date.is_none() && self.editor.len() == 0 && self.government.is_none()
            && self.issuer.is_none() && self.journal.is_none() && self.keywords.is_none()
            && self.label.is_none() && self.issue_number.is_none() && self.page_number.is_none()
            && self.other.is_none() && self.author_np.is_none() && self.report.is_none()
            && self.series.is_none() && self.title.is_none() && self.volume.is_none()
            && self.annotation.is_none()
    }

    /// Return the record type of the record. Only books and journal
    /// articles are supported.
    pub fn record_type(&self) -> (r: Result<RecordType, Error>)
        ensures
            agrees(r, self@.record_type()),
    {
        let book = self.book.is_some();
        let journal = self.journal.is_some();
        if book && journal {
            Err(
                Error::new(
                    ErrorKind::RecordType("ambiguous: Book and Journal both set".to_owned()),
                ),
            )
        } else if book {
            Ok(RecordType::Book)
        } else if journal {
            Ok(RecordType::Journal)
        } else {
            Err(
                Error::new(
                    ErrorKind::RecordType(
                        "undetermined: Neither Book nor Journal are set".to_owned(),
                    ),
                ),
            )
        }
    }

    /// The canonical text of the record.
    pub fn to_string(&self) -> (r: String)
        ensures
            r@ == self@.text(),
    {
        let mut out = String::new();
        push_authors(&mut out, &self.author);
        assert(out@ =~= author_lines(self@.author));
        push_field(&mut out, "%B ", &self.book);
        push_field(&mut out, "%C ", &self.place);
        push_field(&mut out, "%D ", &self.date);
        push_editors(&mut out, &self.editor);
        push_field(&mut out, "%G ", &self.government);
        push_field(&mut out, "%I ", &self.issuer);
        push_field(&mut out, "%J ", &self.journal);
        push_keywords(&mut out, &self.keywords);
        push_field(&mut out, "%L ", &self.label);
        push_field(&mut out, "%N ", &self.issue_number);
        push_field(&mut out, "%O ", &self.other);
        push_field(&mut out, "%P ", &self.page_number);
        push_field(&mut out, "%Q ", &self.author_np);
        push_field(&mut out, "%R ", &self.report);
        push_field(&mut out, "%S ", &self.series);
        push_field(&mut out, "%T ", &self.title);
        push_field(&mut out, "%V ", &self.volume);
        push_field(&mut out, "%X ", &self.annotation);
        out
    }
}

impl Default for Record {
    fn default() -> (r: Record)
        ensures
            r@ == RecordView::empty(),
    {
        let r = Record {
            author: Vec::new(),
            book: None,
            place: None,
            date: None,
            editor: Vec::new(),
            government: None,
            issuer: None,
            journal: None,
            keywords: None,
            label: None,
            issue_number: None,
            page_number: None,
            other: None,
            author_np: None,
            report: None,
            series: None,
            title: None,
            volume: None,
            annotation: None,
        };
        proof {
            assert(r@.author =~= Seq::empty());
            assert(r@.editor =~= Seq::empty());
        }
        r
    }
}

} // verus!
