//! The errors of reading, writing and rendering records.
use vstd::prelude::*;
use vstd::string::*;
use vstd::std_specs::convert::FromSpecImpl;

verus! {

/// `std::io::Error`, carried through as it is.
#[verifier::external_type_specification]
#[verifier::external_body]
pub struct ExIoError(std::io::Error);

/// The specific type of error that can occur.
#[derive(Debug)]
pub enum ErrorKind {
    /// A failure of the underlying stream.
    Io(std::io::Error),
    /// Bytes that are not well-formed UTF-8 where text was expected.
    Utf8(core::str::Utf8Error),
    /// A line that matches no field of the grammar.
    NomError(String),
    /// A tag that is not part of the format.
    TagNotFound(String),
    /// An author field with fewer than two names.
    Author(String),
    /// A keyword field that cannot be decoded.
    Keyword(String),
    /// A record that is not exactly one of book and journal article.
    RecordType(String),
    /// A citation style that is declared but cannot be rendered.
    Unsupported(String),
}

/// What an error says, with the payload of outside error values left out.
pub enum ErrorView {
    Io,
    Utf8,
    NomError(Seq<char>),
    TagNotFound(Seq<char>),
    Author(Seq<char>),
    Keyword(Seq<char>),
    RecordType(Seq<char>),
    Unsupported(Seq<char>),
}

impl View for ErrorKind {
    type V = ErrorView;

    open spec fn view(&self) -> ErrorView {
        match self {
            ErrorKind::Io(_) => ErrorView::Io,
            ErrorKind::Utf8(_) => ErrorView::Utf8,
            ErrorKind::NomError(s) => ErrorView::NomError(s@),
            ErrorKind::TagNotFound(s) => ErrorView::TagNotFound(s@),
            ErrorKind::Author(s) => ErrorView::Author(s@),
            ErrorKind::Keyword(s) => ErrorView::Keyword(s@),
            ErrorKind::RecordType(s) => ErrorView::RecordType(s@),
            ErrorKind::Unsupported(s) => ErrorView::Unsupported(s@),
        }
    }
}

/// An error that can happen when processing refer data.
#[derive(Debug)]
pub struct Error(pub Box<ErrorKind>);

impl View for Error {
    type V = ErrorView;

    open spec fn view(&self) -> ErrorView {
        self.0@
    }
}

/// The text that the standard library's `Debug` for `str` prints: the
/// string in double quotes, with the characters that need it escaped. It
/// depends on the string alone.
pub uninterp spec fn debug_quoted(s: Seq<char>) -> Seq<char>;

/// Wraps `format!("{:?}", s)`, the standard library's `Debug` for `str`.
/// The contract only names the text that it gives.
#[verifier::external_body]
fn debug_text(s: &str) -> (r: String)
    ensures
        r@ == debug_quoted(s@),
{
    format!("{:?}", s)
}

/// Wraps `to_string` of `std::io::Error`, the message that the error
/// displays. Nothing is claimed of the message.
#[verifier::external_body]
fn io_error_text(e: &std::io::Error) -> String {
    e.to_string()
}

/// Wraps `to_string` of `core::str::Utf8Error`, the message that the
/// error displays. Nothing is claimed of the message.
#[verifier::external_body]
fn utf8_error_text(e: &core::str::Utf8Error) -> String {
    e.to_string()
}

impl ErrorView {
    /// The fixed text that introduces the message of each kind of error.
    pub open spec fn prefix(self) -> Seq<char> {
        match self {
            ErrorView::Io => Seq::empty(),
            ErrorView::Utf8 => "refer invalid UTF-8 error: "@,
            ErrorView::NomError(_) => "refer parsing error using nom: "@,
            ErrorView::TagNotFound(_) => "the tag used ("@,
            ErrorView::Author(_) => "Author field incorrectly specified: "@,
            ErrorView::Keyword(_) => "Keyword field incorrectly specified: "@,
            ErrorView::RecordType(_) => "Record type cannot be both book and journal, or neither: "@,
            ErrorView::Unsupported(_) => "Style is not supported: "@,
        }
    }

    /// What follows the prefix, for the kinds whose payload is a text.
    pub open spec fn detail(self) -> Seq<char> {
        match self {
            ErrorView::Io => Seq::empty(),
            ErrorView::Utf8 => Seq::empty(),
            ErrorView::NomError(s) => debug_quoted(s),
            ErrorView::TagNotFound(s) => s + ") is not in the refer specification."@,
            ErrorView::Author(s) => s,
            ErrorView::Keyword(s) => s,
            ErrorView::RecordType(s) => s,
            ErrorView::Unsupported(s) => s,
        }
    }

    /// Whether the whole message is fixed by this view.
    pub open spec fn is_textual(self) -> bool {
        !(self is Io) && !(self is Utf8)
    }
}

impl Error {
    /// Wraps a kind of error.
    pub fn new(kind: ErrorKind) -> (e: Error)
        ensures
            *e.0 == kind,
    {
        Error(Box::new(kind))
    }

    /// Return the specific type of this error.
    pub fn kind(&self) -> (k: &ErrorKind)
        ensures
            *k == *self.0,
    {
        &*self.0
    }

    /// Unwrap this error into its underlying type.
    pub fn into_kind(self) -> (k: ErrorKind)
        ensures
            k == *self.0,
    {
        *self.0
    }

    /// The message of this error. For the kinds that carry a text it is the
    /// kind's prefix followed by its detail; for the two kinds that wrap an
    /// outside error it starts with the prefix and goes on with that
    /// error's own message.
    pub fn to_string(&self) -> (r: String)
        ensures
            self@.is_textual() ==> r@ == self@.prefix() + self@.detail(),
            self@.prefix().is_prefix_of(r@),
    {
        let mut out = String::new();
        match &*self.0 {
            ErrorKind::Io(err) => {
                out = io_error_text(err);
            },
            ErrorKind::Utf8(err) => {
                out.append("refer invalid UTF-8 error: ");
                let t = utf8_error_text(err);
                out.append(t.as_str());
            },
            ErrorKind::NomError(s) => {
                out.append("refer parsing error using nom: ");
                let q = debug_text(s.as_str());
                out.append(q.as_str());
            },
            ErrorKind::TagNotFound(s) => {
                out.append("the tag used (");
                out.append(s.as_str());
                out.append(") is not in the refer specification.");
                assert(out@ =~= self@.prefix() + self@.detail());
            },
            ErrorKind::Author(s) => {
                out.append("Author field incorrectly specified: ");
                out.append(s.as_str());
            },
            ErrorKind::Keyword(s) => {
                out.append("Keyword field incorrectly specified: ");
                out.append(s.as_str());
            },
            ErrorKind::RecordType(s) => {
                out.append("Record type cannot be both book and journal, or neither: ");
                out.append(s.as_str());
            },
            ErrorKind::Unsupported(s) => {
                out.append("Style is not supported: ");
                out.append(s.as_str());
            },
        }
        out
    }
}

/// Whether a result of the library agrees with its model: the same value,
/// or an error with the same content.
pub open spec fn agrees<T>(res: Result<T, Error>, model: Result<T, ErrorView>) -> bool {
    match model {
        Ok(v) => res == Ok::<T, Error>(v),
        Err(e) => res is Err && res->Err_0@ == e,
    }
}

/// Whether a result of the library agrees with its model: a value with the
/// same view, or an error with the same content.
pub open spec fn agrees_view<T: View>(res: Result<T, Error>, model: Result<T::V, ErrorView>) -> bool {
    match model {
        Ok(v) => res is Ok && res->Ok_0@ == v,
        Err(e) => res is Err && res->Err_0@ == e,
    }
}

impl From<std::io::Error> for Error {
    fn from(err: std::io::Error) -> (e: Error) {
        Error::new(ErrorKind::Io(err))
    }
}

impl FromSpecImpl<std::io::Error> for Error {
    open spec fn obeys_from_spec() -> bool {
        true
    }

    open spec fn from_spec(err: std::io::Error) -> Error {
        Error(Box::new(ErrorKind::Io(err)))
    }
}

} // verus!
