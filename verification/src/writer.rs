//! Writing records: the field lines of a record are checked by the field
//! grammar and written in canonical form.
use vstd::prelude::*;
use vstd::string::*;
use vstd::utf8::*;
use crate::error::{Error, ErrorView};
use crate::grammar::{fold_line, parse_input_line};
use crate::record::{Record, RecordView};
use crate::text::NEWLINE;

verus! {

/// The texts of a list of lines.
pub open spec fn line_texts(lines: Seq<&str>) -> Seq<Seq<char>> {
    Seq::new(lines.len(), |k: int| lines[k]@)
}

/// What the lines make of the record `acc`, each folded into it in turn by
/// the field grammar, after `done` lines: the first line that is refused
/// gives the error.
pub open spec fn fold_lines(lines: Seq<Seq<char>>, acc: RecordView, done: nat) -> Result<
    RecordView,
    ErrorView,
>
    decreases lines.len(),
{
    if lines.len() == 0 {
        Ok(acc)
    } else {
        match fold_line(encode_utf8(lines[0]), acc, done + 1) {
            Ok(next) => fold_lines(lines.drop_first(), next, done + 1),
            Err(e) => Err(e),
        }
    }
}

/// The bytes of a record as the writer puts them out: its canonical text,
/// and the line feed that ends the record.
pub open spec fn record_bytes(record: RecordView) -> Seq<u8> {
    encode_utf8(record.text()) + seq![NEWLINE]
}

/// A writer of refer records into bytes held in memory.
pub struct Writer {
    /// What has been written.
    pub wtr: Vec<u8>,
}

impl Writer {
    /// Create a new refer writer that appends to the given bytes.
    pub fn new(wtr: Vec<u8>) -> (w: Writer)
        ensures
            w.wtr@ == wtr@,
    {
        Writer { wtr }
    }

    /// For each input field, we parse it and check it's correct.
    fn check_field(&self, field: String, record: &mut Record, line_no: u64) -> (r: Result<
        (),
        Error,
    >)
        ensures
            match fold_line(encode_utf8(field@), old(record)@, line_no as nat) {
                Ok(v) => r is Ok && final(record)@ == v,
                Err(e) => r is Err && r->Err_0@ == e && final(record)@ == old(record)@,
            },
    {
        match parse_input_line(field, record, line_no) {
            Ok(_) => Ok(()),
            Err(e) => Err(e),
        }
    }

    /// Writes one record, given as its field lines. The lines are folded
    /// into a fresh record by the field grammar, and the canonical text of
    /// that record is appended, followed by one line feed. Where a line is
    /// refused nothing is written.
    pub fn write_record(&mut self, record: Vec<&str>) -> (r: Result<(), Error>)
        ensures
            match fold_lines(line_texts(record@), RecordView::empty(), 0) {
                Ok(v) => r is Ok && final(self).wtr@ == old(self).wtr@ + record_bytes(v),
                Err(e) => r is Err && r->Err_0@ == e && final(self).wtr@ == old(self).wtr@,
            },
    {
        let mut record_holder = Record::default();
        let ghost lines = line_texts(record@);
        let n = record.len();
        let mut k: usize = 0;
        assert(lines.skip(0) =~= lines);
        while k < n
            invariant
                n == record@.len(),
                k <= n,
                lines == line_texts(record@),
                self.wtr@ == old(self).wtr@,
                fold_lines(lines.skip(k as int), record_holder@, k as nat) == fold_lines(
                    lines,
                    RecordView::empty(),
                    0,
                ),
            decreases n - k,
        {
            proof {
                let rest = lines.skip(k as int);
                assert(rest[0] == record@[k as int]@);
                assert(rest.drop_first() =~= lines.skip(k + 1));
            }
            assert(k < u64::MAX);
            let line_no: u64 = k as u64 + 1;
            match self.check_field(record[k].to_owned(), &mut record_holder, line_no) {
                Ok(_) => {},
                Err(e) => {
                    return Err(e);
                },
            }
            k = k + 1;
        }
        let text = record_holder.to_string();
        self.wtr.extend_from_slice(text.as_str().as_bytes());
        // must be newline at end of record
        self.wtr.push(NEWLINE);
        assert(self.wtr@ =~= old(self).wtr@ + record_bytes(record_holder@));
        Ok(())
    }

    /// Hands out what has been written.
    pub fn into_inner(self) -> (r: Result<Vec<u8>, Error>)
        ensures
            r matches Ok(v) && v@ == self.wtr@,
    {
        Ok(self.wtr)
    }

    /// Flush the writer at the end of usage. Everything written is in the
    /// bytes already, so nothing changes.
    pub fn flush(&mut self) -> (r: Result<(), Error>)
        ensures
            r is Ok,
            final(self).wtr@ == old(self).wtr@,
    {
        Ok(())
    }
}

} // verus!
