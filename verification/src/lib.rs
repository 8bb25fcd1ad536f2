//! Reading, writing and rendering bibliographic records in the refer format.
//!
//! A record is a paragraph of field lines, each introduced by a tag of a
//! percent sign and a letter; blank lines separate records. [`Reader`]
//! reads records from bytes, [`Writer`] checks the field lines of a record
//! and writes them in canonical form, and [`StyleBuilder`] renders a
//! record as a citation.
use vstd::prelude::*;
use vstd::utf8::*;

pub mod cli;
pub mod error;
pub mod grammar;
pub mod reader;
pub mod record;
pub mod roundtrip;
pub mod style;
pub mod text;
pub mod writer;

pub use crate::cli::{AppArgs, ReferEditor};
pub use crate::error::{Error, ErrorKind};
pub use crate::reader::{Reader, RecordsIntoIter, RecordsIter};
pub use crate::record::{Author, Record, RecordType};
pub use crate::style::{Style, StyleBuilder};
pub use crate::writer::Writer;

verus! {

/// The text that the bytes encode, or an encoding error where they are not
/// well-formed UTF-8.
pub fn str_from_utf8(input: &[u8]) -> (r: Result<&str, error::Error>)
    ensures
        valid_utf8(input@) ==> r is Ok && r->Ok_0@ == decode_utf8(input@),
        !valid_utf8(input@) ==> r is Err && r->Err_0@ == error::ErrorView::Utf8,
{
    match core::str::from_utf8(input) {
        Ok(s) => Ok(s),
        Err(e) => Err(error::Error::new(error::ErrorKind::Utf8(e))),
    }
}

} // verus!
