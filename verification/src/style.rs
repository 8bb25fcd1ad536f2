//! Rendering a record as a citation in a named style.
use vstd::prelude::*;
use vstd::string::*;
use crate::error::{agrees_view, Error, ErrorKind, ErrorView};
use crate::record::{AuthorView, Record, RecordType, RecordView};

verus! {

/// The citation styles. Only Harvard can be rendered.
#[derive(Debug, Clone, Copy, PartialEq, Eq, Structural)]
pub enum Style {
    Apa,
    Harvard,
}

impl Default for Style {
    fn default() -> (s: Style)
        ensures
            s == Style::Harvard,
    {
        Style::Harvard
    }
}

/// The text of an optional field followed by `after`: nothing when the
/// field is absent.
pub open spec fn optional(value: Option<Seq<char>>, after: Seq<char>) -> Seq<char> {
    match value {
        Some(v) => v + after,
        None => Seq::empty(),
    }
}

/// Every author as surname, space and other names; ` and ` between two
/// authors and a space after the last.
pub open spec fn named_authors(authors: Seq<AuthorView>) -> Seq<char>
    decreases authors.len(),
{
    if authors.len() == 0 {
        Seq::empty()
    } else if authors.len() == 1 {
        authors[0].last + " "@ + authors[0].rest + " "@
    } else {
        authors[0].last + " "@ + authors[0].rest + " and "@ + named_authors(authors.drop_first())
    }
}

/// The author segment: with more than four authors the first one and
/// `et al., `, otherwise all of them.
pub open spec fn author_segment(authors: Seq<AuthorView>) -> Seq<char> {
    if authors.len() > 4 {
        authors[0].last + " "@ + authors[0].rest + " et al., "@
    } else {
        named_authors(authors)
    }
}

/// The date segment: the date in round brackets and a space.
pub open spec fn date_segment(date: Option<Seq<char>>) -> Seq<char> {
    match date {
        Some(d) => "("@ + d + ") "@,
        None => Seq::empty(),
    }
}

/// The publisher of a book, after a colon where a place stands before it.
pub open spec fn issuer_segment(place: Option<Seq<char>>, issuer: Option<Seq<char>>) -> Seq<
    char,
> {
    match issuer {
        Some(i) => (if place is Some {
            ": "@
        } else {
            Seq::empty()
        }) + i + ". "@,
        None => Seq::empty(),
    }
}

/// The series of a book, before a comma where a volume follows and before
/// a period where none does.
pub open spec fn series_segment(series: Option<Seq<char>>, volume: Option<Seq<char>>) -> Seq<
    char,
> {
    match series {
        Some(s) => s + (if volume is Some {
            ", "@
        } else {
            "."@
        }),
        None => Seq::empty(),
    }
}

/// The issue number of a journal, in round brackets and before a space.
pub open spec fn issue_segment(issue: Option<Seq<char>>) -> Seq<char> {
    match issue {
        Some(i) => "("@ + i + ") "@,
        None => Seq::empty(),
    }
}

/// A book in Harvard style: authors, date, title, place, publisher,
/// series, volume.
pub open spec fn harvard_book(r: RecordView) -> Seq<char> {
    author_segment(r.author) + date_segment(r.date) + optional(r.book, ". "@) + optional(
        r.place,
        Seq::empty(),
    ) + issuer_segment(r.place, r.issuer) + series_segment(r.series, r.volume) + optional(
        r.volume,
        "."@,
    )
}

/// A journal article in Harvard style: authors, date, title, journal,
/// volume, issue, pages.
pub open spec fn harvard_journal(r: RecordView) -> Seq<char> {
    author_segment(r.author) + date_segment(r.date) + optional(r.title, ". "@) + optional(
        r.journal,
        ", "@,
    ) + optional(r.volume, Seq::empty()) + issue_segment(r.issue_number) + optional(
        r.page_number,
        "."@,
    )
}

/// The citation of a record in a style. The type of the record is
/// determined first, so a record that is neither or both of book and
/// journal article is refused under every style.
pub open spec fn citation(r: RecordView, style: Style) -> Result<Seq<char>, ErrorView> {
    match r.record_type() {
        Err(e) => Err(e),
        Ok(t) => match style {
            Style::Apa => Err(ErrorView::Unsupported("Apa"@)),
            Style::Harvard => match t {
                RecordType::Book => Ok(harvard_book(r)),
                RecordType::Journal => Ok(harvard_journal(r)),
            },
        },
    }
}

fn push_optional(a: &mut String, value: &Option<String>, after: &str)
    ensures
        final(a)@ == old(a)@ + optional(value.deep_view(), after@),
{
    match value {
        Some(v) => {
            a.append(v.as_str());
            a.append(after);
            assert(a@ =~= old(a)@ + optional(value.deep_view(), after@));
        },
        None => {
            assert(a@ =~= old(a)@ + optional(value.deep_view(), after@));
        },
    }
}

/// The author segment of a Harvard citation.
pub fn harvard_author_string(record: &Record) -> (r: String)
    ensures
        r@ == author_segment(record@.author),
{
    let mut a = String::new();
    let n = record.author.len();
    let ghost all = record@.author;
    if n > 4 {
        let first = &record.author[0];
        a.append(first.last.as_str());
        a.append(" ");
        a.append(first.rest.as_str());
        a.append(" et al., ");
        assert(all[0] == record.author@[0]@);
        assert(a@ =~= author_segment(all));
        a
    } else {
        let mut i: usize = 0;
        assert(all.skip(0) =~= all);
        while i < n
            invariant
                n == record.author@.len(),
                i <= n,
                all == record@.author,
                a@ + named_authors(all.skip(i as int)) == named_authors(all),
            decreases n - i,
        {
            let author = &record.author[i];
            proof {
                let rest = all.skip(i as int);
                assert(rest[0] == author@);
                assert(rest.drop_first() =~= all.skip(i + 1));
                if i + 1 < n {
                    assert(a@ + author@.last + " "@ + author@.rest + " and "@ + named_authors(
                        all.skip(i + 1),
                    ) =~= a@ + named_authors(rest));
                } else {
                    assert(named_authors(all.skip(i + 1)) =~= Seq::empty());
                    assert(a@ + author@.last + " "@ + author@.rest + " "@ + named_authors(
                        all.skip(i + 1),
                    ) =~= a@ + named_authors(rest));
                }
            }
            a.append(author.last.as_str());
            a.append(" ");
            a.append(author.rest.as_str());
            if i + 1 < n {
                a.append(" and ");
            } else {
                a.append(" ");
            }
            i = i + 1;
        }
        assert(a@ + named_authors(all.skip(n as int)) =~= a@);
        a
    }
}

/// Appends the date segment of a Harvard citation.
pub fn harvard_date_string(record: &Record, a: &mut String)
    ensures
        final(a)@ == old(a)@ + date_segment(record@.date),
{
    if let Some(d) = &record.date {
        a.append("(");
        a.append(d.as_str());
        a.append(") ");
        assert(a@ =~= old(a)@ + date_segment(record@.date));
    } else {
        assert(a@ =~= old(a)@ + date_segment(record@.date));
    }
}

/// Renders a record in a citation style.
#[derive(Debug)]
pub struct StyleBuilder {
    /// The record to render.
    inner: Record,
    /// The styling to use, default is Harvard.
    typ: Style,
    /// Whether to use the other (%O) field.
    use_other_field: bool,
}

impl StyleBuilder {
    /// The record that is rendered.
    pub closed spec fn record(&self) -> RecordView {
        self.inner@
    }

    /// The style that the record is rendered in.
    pub closed spec fn style(&self) -> Style {
        self.typ
    }

    /// Whether the other field is to be used.
    pub closed spec fn uses_other(&self) -> bool {
        self.use_other_field
    }

    /// A builder for the record, in the Harvard style.
    pub fn new(rec: Record) -> (b: StyleBuilder)
        ensures
            b.record() == rec@,
            b.style() == Style::Harvard,
            b.uses_other(),
    {
        StyleBuilder { inner: rec, typ: Style::default(), use_other_field: true }
    }

    /// Set the style of the builder.
    pub fn set_style(&mut self, style: Style)
        ensures
            final(self).style() == style,
            final(self).record() == old(self).record(),
            final(self).uses_other() == old(self).uses_other(),
    {
        self.typ = style;
    }

    /// Use the '%O' (other) field when printing references in a specified
    /// format.
    pub fn use_other(&mut self)
        ensures
            final(self).uses_other(),
            final(self).style() == old(self).style(),
            final(self).record() == old(self).record(),
    {
        self.use_other_field = true;
    }

    /// Formats the record into a citation. Fails where the record is not
    /// exactly one of book and journal article, and where the style cannot
    /// be rendered.
    pub fn format(&self) -> (r: Result<String, Error>)
        ensures
            agrees_view(r, citation(self.record(), self.style())),
    {
        let typ = match self.inner.record_type() {
            Ok(t) => t,
            Err(e) => {
                return Err(e);
            },
        };
        match self.typ {
            Style::Apa => Err(Error::new(ErrorKind::Unsupported("Apa".to_owned()))),
            Style::Harvard => {
                let record = &self.inner;
                // the authors, then the date if there is one
                let mut a = harvard_author_string(record);
                harvard_date_string(record, &mut a);
                match typ {
                    RecordType::Book => {
                        push_optional(&mut a, &record.book, ". ");
                        push_optional(&mut a, &record.place, "");
                        if let Some(p) = &record.issuer {
                            let ghost before = a@;
                            if record.place.is_some() {
                                a.append(": ");
                            }
                            a.append(p.as_str());
                            a.append(". ");
                            assert(a@ =~= before + issuer_segment(
                                record@.place,
                                record@.issuer,
                            ));
                        } else {
                            assert(a@ + issuer_segment(record@.place, record@.issuer) =~= a@);
                        }
                        if let Some(s) = &record.series {
                            let ghost before = a@;
                            a.append(s.as_str());
                            if record.volume.is_some() {
                                a.append(", ");
                            } else {
                                a.append(".");
                            }
                            assert(a@ =~= before + series_segment(
                                record@.series,
                                record@.volume,
                            ));
                        } else {
                            assert(a@ + series_segment(record@.series, record@.volume) =~= a@);
                        }
                        push_optional(&mut a, &record.volume, ".");
                        proof {
                            reveal_strlit("");
                            assert(""@ =~= Seq::<char>::empty());
                        }
                        Ok(a)
                    },
                    RecordType::Journal => {
                        push_optional(&mut a, &record.title, ". ");
                        push_optional(&mut a, &record.journal, ", ");
                        push_optional(&mut a, &record.volume, "");
                        if let Some(i) = &record.issue_number {
                            let ghost before = a@;
                            a.append("(");
                            a.append(i.as_str());
                            a.append(") ");
                            assert(a@ =~= before + issue_segment(record@.issue_number));
                        } else {
                            assert(a@ + issue_segment(record@.issue_number) =~= a@);
                        }
                        push_optional(&mut a, &record.page_number, ".");
                        proof {
                            reveal_strlit("");
                            assert(""@ =~= Seq::<char>::empty());
                        }
                        Ok(a)
                    },
                }
            },
        }
    }
}

/// A record without book and journal is refused as undetermined, and a
/// record with both as ambiguous, whatever the style.
pub proof fn law_untyped_record_is_refused(r: RecordView, style: Style)
    ensures
        r.book is None && r.journal is None ==> citation(r, style) == Err::<
            Seq<char>,
            ErrorView,
        >(ErrorView::RecordType("undetermined: Neither Book nor Journal are set"@)),
        r.book is Some && r.journal is Some ==> citation(r, style) == Err::<
            Seq<char>,
            ErrorView,
        >(ErrorView::RecordType("ambiguous: Book and Journal both set"@)),
{
}

/// With more than four authors the author segment names the first author
/// only.
pub proof fn law_many_authors(authors: Seq<AuthorView>)
    requires
        authors.len() > 4,
    ensures
        author_segment(authors) == authors[0].last + " "@ + authors[0].rest + " et al., "@,
{
}

} // verus!
