//! Reading records from bytes: lines are grouped into records that blank
//! lines separate, and each line is folded into the record by the field
//! grammar.
use vstd::prelude::*;
use vstd::slice::*;
use vstd::string::*;
use vstd::utf8::*;
use crate::error::{Error, ErrorView};
use crate::grammar::{fold_line, nom_message, parse_input_line};
use crate::record::{Record, RecordView};
use crate::str_from_utf8;
use crate::text::{is_blank, NEWLINE};

verus! {

/// The length of the first line of the input, its line feed included: the
/// whole input where it holds no line feed.
pub open spec fn line_len(bytes: Seq<u8>) -> nat
    decreases bytes.len(),
{
    if bytes.len() == 0 {
        0
    } else if bytes[0] == NEWLINE {
        1
    } else {
        1 + line_len(bytes.drop_first())
    }
}

/// The first line of a non-empty input is not empty and ends within the
/// input.
pub proof fn lemma_line_len_bounds(bytes: Seq<u8>)
    ensures
        line_len(bytes) <= bytes.len(),
        bytes.len() > 0 ==> line_len(bytes) >= 1,
    decreases bytes.len(),
{
    if bytes.len() > 0 && bytes[0] != NEWLINE {
        lemma_line_len_bounds(bytes.drop_first());
    }
}

/// The first line ends at the first line feed, or at the end of the input.
pub proof fn lemma_line_len_is(bytes: Seq<u8>, n: int)
    requires
        0 <= n <= bytes.len(),
        n == 0 ==> bytes.len() == 0,
        forall|j: int| 0 <= j < n - 1 ==> bytes[j] != NEWLINE,
        n > 0 ==> bytes[n - 1] == NEWLINE || n == bytes.len(),
    ensures
        line_len(bytes) == n,
    decreases n,
{
    if n > 0 && !(bytes[0] == NEWLINE) {
        let rest = bytes.drop_first();
        if n == 1 {
            assert(rest.len() == 0);
            assert(line_len(rest) == 0);
        } else {
            assert forall|j: int| 0 <= j < n - 2 implies rest[j] != NEWLINE by {
                assert(rest[j] == bytes[j + 1]);
            }
            assert(rest[n - 2] == bytes[n - 1]);
            lemma_line_len_is(rest, n - 1);
        }
    } else if n > 1 {
        assert(bytes[0] != NEWLINE);
    }
}

/// How one pull of the reader ends.
pub enum ReadOutcome {
    /// The input is exhausted and nothing was pending.
    End,
    /// A complete record.
    Item(RecordView),
    /// A line that is not text, or that the grammar refuses.
    Failure(ErrorView),
}

/// The result of one pull: how it ended, what is left of the input, and
/// the number of the last line that was read.
pub struct ReadStep {
    pub outcome: ReadOutcome,
    pub rest: Seq<u8>,
    pub line: nat,
}

/// One pull of the reader, from the bytes that are left, the record built
/// so far and the number of lines read so far.
///
/// A blank line is skipped while nothing has been absorbed into the
/// record, and completes the record otherwise. Any other line is folded
/// into the record by the field grammar. At the end of the input a pending
/// record is complete; with nothing pending the sequence ends. A line
/// that is not UTF-8 or that the grammar refuses ends the pull with the
/// error.
pub open spec fn read_step(bytes: Seq<u8>, acc: RecordView, line: nat) -> ReadStep
    decreases bytes.len(),
{
    if bytes.len() == 0 {
        ReadStep {
            outcome: if acc.is_empty() {
                ReadOutcome::End
            } else {
                ReadOutcome::Item(acc)
            },
            rest: bytes,
            line,
        }
    } else {
        proof {
            lemma_line_len_bounds(bytes);
        }
        let n = line_len(bytes) as int;
        let text = bytes.subrange(0, n);
        let rest = bytes.subrange(n, bytes.len() as int);
        if !valid_utf8(text) {
            ReadStep { outcome: ReadOutcome::Failure(ErrorView::Utf8), rest, line: line + 1 }
        } else if is_blank(decode_utf8(text)) {
            if acc.is_empty() {
                read_step(rest, acc, line + 1)
            } else {
                ReadStep { outcome: ReadOutcome::Item(acc), rest, line: line + 1 }
            }
        } else {
            match fold_line(text, acc, line + 1) {
                Ok(next) => read_step(rest, next, line + 1),
                Err(e) => ReadStep { outcome: ReadOutcome::Failure(e), rest, line: line + 1 },
            }
        }
    }
}

/// A pull never reads past its input, and never counts more lines than it
/// reads bytes.
pub proof fn lemma_read_step_bounds(bytes: Seq<u8>, acc: RecordView, line: nat)
    ensures
        read_step(bytes, acc, line).rest.len() <= bytes.len(),
        read_step(bytes, acc, line).rest == bytes.subrange(
            bytes.len() - read_step(bytes, acc, line).rest.len(),
            bytes.len() as int,
        ),
        read_step(bytes, acc, line).line - line <= bytes.len() - read_step(
            bytes,
            acc,
            line,
        ).rest.len(),
        read_step(bytes, acc, line).line >= line,
        read_step(bytes, acc, line).outcome is Item && acc.is_empty() ==> read_step(
            bytes,
            acc,
            line,
        ).rest.len() < bytes.len(),
        read_step(bytes, acc, line).outcome matches ReadOutcome::Item(r) ==> !r.is_empty(),
        read_step(bytes, acc, line).outcome is Failure ==> read_step(bytes, acc, line).rest.len()
            < bytes.len(),
    decreases bytes.len(),
{
    if bytes.len() == 0 {
        assert(bytes.subrange(0, 0) =~= bytes);
    } else {
        lemma_line_len_bounds(bytes);
        let n = line_len(bytes) as int;
        let text = bytes.subrange(0, n);
        let rest = bytes.subrange(n, bytes.len() as int);
        if !valid_utf8(text) {
        } else if is_blank(decode_utf8(text)) {
            if acc.is_empty() {
                lemma_read_step_bounds(rest, acc, line + 1);
                let r = read_step(rest, acc, line + 1).rest;
                assert(rest.subrange(rest.len() - r.len(), rest.len() as int) =~= bytes.subrange(
                    bytes.len() - r.len(),
                    bytes.len() as int,
                ));
            }
        } else {
            match fold_line(text, acc, line + 1) {
                Ok(next) => {
                    lemma_read_step_bounds(rest, next, line + 1);
                    let r = read_step(rest, next, line + 1).rest;
                    assert(rest.subrange(rest.len() - r.len(), rest.len() as int)
                        =~= bytes.subrange(bytes.len() - r.len(), bytes.len() as int));
                },
                Err(e) => {},
            }
        }
    }
}

/// What one line does to the reading of a record: the record after the
/// line, and whether the line completes it. A blank line leaves the
/// record as it is, and completes it unless it is empty; any other line is
/// folded into the record by the field grammar. A line that is not UTF-8
/// or that the grammar refuses gives the error.
pub open spec fn line_effect(line: Seq<u8>, acc: RecordView, line_no: nat) -> Result<
    (RecordView, bool),
    ErrorView,
> {
    if !valid_utf8(line) {
        Err(ErrorView::Utf8)
    } else if is_blank(decode_utf8(line)) {
        Ok((acc, !acc.is_empty()))
    } else {
        match fold_line(line, acc, line_no) {
            Ok(next) => Ok((next, false)),
            Err(e) => Err(e),
        }
    }
}

/// A pull goes line by line: the first line of what is left has its
/// effect on the record, and the pull ends with the record where the line
/// completes it, ends with the error where the line is refused, and goes
/// on after the line otherwise.
pub proof fn lemma_read_step_by_line(bytes: Seq<u8>, acc: RecordView, line: nat)
    requires
        bytes.len() > 0,
    ensures
        read_step(bytes, acc, line) == ({
            let n = line_len(bytes) as int;
            let rest = bytes.subrange(n, bytes.len() as int);
            match line_effect(bytes.subrange(0, n), acc, line + 1) {
                Ok((next, true)) => ReadStep {
                    outcome: ReadOutcome::Item(next),
                    rest,
                    line: line + 1,
                },
                Ok((next, false)) => read_step(rest, next, line + 1),
                Err(e) => ReadStep { outcome: ReadOutcome::Failure(e), rest, line: line + 1 },
            }
        }),
{
}

/// Takes one line into the record that is being read, and tells whether
/// the line completes the record. The line is what the input holds up to
/// and with a line feed, or up to its end. On failure the record is
/// unchanged.
pub fn take_line(line: &[u8], record: &mut Record, line_no: u64) -> (r: Result<bool, Error>)
    ensures
        match line_effect(line@, old(record)@, line_no as nat) {
            Ok(effect) => r == Ok::<bool, Error>(effect.1) && final(record)@ == effect.0,
            Err(e) => r is Err && r->Err_0@ == e && final(record)@ == old(record)@,
        },
{
    let text = match str_from_utf8(line) {
        Ok(t) => t,
        Err(e) => {
            return Err(e);
        },
    };
    proof {
        decode_utf8_encode_utf8(line@);
    }
    if text.trim().is_empty() {
        // a blank line: skipped before a record, the end of one after it
        return Ok(!record.is_empty());
    }
    match parse_input_line(text.to_owned(), record, line_no) {
        Ok(_) => Ok(false),
        Err(e) => Err(e),
    }
}

/// How a result of the reader agrees with the outcome of a pull.
pub open spec fn read_agrees(r: Result<Option<Record>, Error>, outcome: ReadOutcome) -> bool {
    match outcome {
        ReadOutcome::End => r == Ok::<Option<Record>, Error>(None),
        ReadOutcome::Item(v) => r matches Ok(Some(rec)) && rec@ == v,
        ReadOutcome::Failure(e) => r matches Err(err) && err@ == e,
    }
}

/// How an item of the sequence of records agrees with the outcome of a
/// pull.
pub open spec fn item_agrees(r: Option<Result<Record, Error>>, outcome: ReadOutcome) -> bool {
    match outcome {
        ReadOutcome::End => r is None,
        ReadOutcome::Item(v) => r matches Some(Ok(rec)) && rec@ == v,
        ReadOutcome::Failure(e) => r matches Some(Err(err)) && err@ == e,
    }
}

/// A refer reader over bytes held in memory.
pub struct Reader {
    /// The input.
    rdr: Vec<u8>,
    /// How much of the input has been read.
    pos: usize,
    /// The number of lines read so far.
    line: u64,
}

fn scan_line(data: &[u8], start: usize) -> (end: usize)
    requires
        start < data@.len(),
    ensures
        start < end <= data@.len(),
        end - start == line_len(data@.subrange(start as int, data@.len() as int)),
{
    let n = data.len();
    let mut end = start;
    while end < n && data[end] != NEWLINE
        invariant
            n == data@.len(),
            start <= end <= n,
            forall|j: int| start <= j < end ==> data@[j] != NEWLINE,
        decreases n - end,
    {
        end = end + 1;
    }
    if end < n {
        end = end + 1;
    }
    proof {
        let rest = data@.subrange(start as int, n as int);
        assert forall|j: int| 0 <= j < end - start - 1 implies rest[j] != NEWLINE by {
            assert(rest[j] == data@[start + j]);
        }
        assert(rest[end - start - 1] == data@[end - 1]);
        lemma_line_len_is(rest, end - start);
    }
    end
}

impl Reader {
    #[verifier::type_invariant]
    spec fn inv(self) -> bool {
        self.pos <= self.rdr@.len() && self.line <= self.pos
    }

    /// The bytes that have not been read yet.
    pub closed spec fn remaining(&self) -> Seq<u8> {
        self.rdr@.subrange(self.pos as int, self.rdr@.len() as int)
    }

    /// The number of lines read so far.
    pub closed spec fn line(&self) -> nat {
        self.line as nat
    }

    /// A reader at the start of the given bytes.
    pub fn new(rdr: &[u8]) -> (r: Reader)
        ensures
            r.remaining() == rdr@,
            r.line() == 0,
    {
        let r = Reader { rdr: slice_to_vec(rdr), pos: 0, line: 0 };
        assert(r.rdr@.subrange(0, r.rdr@.len() as int) =~= rdr@);
        r
    }

    /// A borrowed iterator over the records of the input.
    pub fn records(&mut self) -> (it: RecordsIter<'_>)
        ensures
            it.remaining() == old(self).remaining(),
            it.line() == old(self).line(),
            mut_ref_future(it.rdr) == *final(self),
    {
        RecordsIter::new(self)
    }

    /// An owned iterator over the records of the input.
    pub fn into_records(self) -> (it: RecordsIntoIter)
        ensures
            it.remaining() == self.remaining(),
            it.line() == self.line(),
    {
        RecordsIntoIter::new(self)
    }

    /// Read a single record: one pull, from where the reader stands.
    #[verifier::rlimit(30)]
    pub fn read_record(&mut self) -> (r: Result<Option<Record>, Error>)
        ensures
            read_agrees(
                r,
                read_step(old(self).remaining(), RecordView::empty(), old(self).line()).outcome,
            ),
            final(self).remaining() == read_step(
                old(self).remaining(),
                RecordView::empty(),
                old(self).line(),
            ).rest,
            final(self).line() == read_step(
                old(self).remaining(),
                RecordView::empty(),
                old(self).line(),
            ).line,
    {
        let mut record = Record::default();
        let ghost goal = read_step(old(self).remaining(), RecordView::empty(), old(self).line());
        loop
            invariant
                goal == read_step(old(self).remaining(), RecordView::empty(), old(self).line()),
                read_step(self.remaining(), record@, self.line()) == goal,
            decreases self.rdr@.len() - self.pos,
        {
            proof {
                use_type_invariant(&*self);
            }
            if self.pos >= self.rdr.len() {
                assert(self.remaining().len() == 0);
                if record.is_empty() {
                    return Ok(None);
                } else {
                    return Ok(Some(record));
                }
            }
            let ghost before = self.remaining();
            let ghost count = self.line();
            let ghost acc = record@;
            let start = self.pos;
            let end = scan_line(self.rdr.as_slice(), start);
            self.pos = end;
            self.line = self.line + 1;
            let bytes = slice_subrange(self.rdr.as_slice(), start, end);
            proof {
                lemma_line_len_bounds(before);
                assert(bytes@ =~= before.subrange(0, line_len(before) as int));
                assert(self.remaining() =~= before.subrange(
                    line_len(before) as int,
                    before.len() as int,
                ));
                assert(before.len() > 0);
                assert(self.line() == count + 1);
                assert(goal == read_step(before, acc, count));
            }
            match take_line(bytes, &mut record, self.line) {
                Ok(done) => {
                    if done {
                        return Ok(Some(record));
                    }
                },
                Err(e) => {
                    return Err(e);
                },
            }
        }
    }
}

/// A borrowed iterator over the records of a reader.
pub struct RecordsIter<'r> {
    /// The underlying reader. What it will be when the iterator lets go of
    /// it is what the reader is that the iterator was taken from.
    pub rdr: &'r mut Reader,
}

impl<'r> RecordsIter<'r> {
    /// The bytes that the underlying reader has not read yet.
    pub open spec fn remaining(&self) -> Seq<u8> {
        mut_ref_current(self.rdr).remaining()
    }

    /// The number of lines that the underlying reader has read so far.
    pub open spec fn line(&self) -> nat {
        mut_ref_current(self.rdr).line()
    }

    fn new(rdr: &'r mut Reader) -> (it: RecordsIter<'r>)
        ensures
            it.remaining() == old(rdr).remaining(),
            it.line() == old(rdr).line(),
            mut_ref_future(it.rdr) == *final(rdr),
    {
        RecordsIter { rdr }
    }

    /// Return a reference to the underlying reader.
    pub fn reader(&self) -> (r: &Reader)
        ensures
            r.remaining() == self.remaining(),
            r.line() == self.line(),
    {
        self.rdr
    }

    /// Return a mutable reference to the underlying reader.
    pub fn reader_mut(&mut self) -> (r: &mut Reader)
        ensures
            r.remaining() == old(self).remaining(),
            r.line() == old(self).line(),
            final(self).remaining() == final(r).remaining(),
            final(self).line() == final(r).line(),
            mut_ref_future(final(self).rdr) == mut_ref_future(old(self).rdr),
    {
        self.rdr
    }

    /// The next record of the input: one pull of the underlying reader.
    pub fn next(&mut self) -> (r: Option<Result<Record, Error>>)
        ensures
            item_agrees(
                r,
                read_step(old(self).remaining(), RecordView::empty(), old(self).line()).outcome,
            ),
            final(self).remaining() == read_step(
                old(self).remaining(),
                RecordView::empty(),
                old(self).line(),
            ).rest,
            final(self).line() == read_step(
                old(self).remaining(),
                RecordView::empty(),
                old(self).line(),
            ).line,
            mut_ref_future(final(self).rdr) == mut_ref_future(old(self).rdr),
    {
        match self.rdr.read_record() {
            Ok(Some(r)) => Some(Ok(r)),
            Ok(None) => None,
            Err(e) => Some(Err(e)),
        }
    }
}

/// An owned iterator over the records of a reader.
pub struct RecordsIntoIter {
    /// The underlying reader.
    rdr: Reader,
}

impl RecordsIntoIter {
    /// The bytes that the underlying reader has not read yet.
    pub closed spec fn remaining(&self) -> Seq<u8> {
        self.rdr.remaining()
    }

    /// The number of lines that the underlying reader has read so far.
    pub closed spec fn line(&self) -> nat {
        self.rdr.line()
    }

    fn new(rdr: Reader) -> (it: RecordsIntoIter)
        ensures
            it.remaining() == rdr.remaining(),
            it.line() == rdr.line(),
    {
        RecordsIntoIter { rdr }
    }

    /// Return a reference to the underlying reader.
    pub fn reader(&self) -> (r: &Reader)
        ensures
            r.remaining() == self.remaining(),
            r.line() == self.line(),
    {
        &self.rdr
    }

    /// Return a mutable reference to the underlying reader.
    pub fn reader_mut(&mut self) -> (r: &mut Reader)
        ensures
            r.remaining() == old(self).remaining(),
            r.line() == old(self).line(),
            final(self).remaining() == final(r).remaining(),
            final(self).line() == final(r).line(),
    {
        &mut self.rdr
    }

    /// Drop this iterator and return the underlying reader.
    pub fn into_reader(self) -> (r: Reader)
        ensures
            r.remaining() == self.remaining(),
            r.line() == self.line(),
    {
        self.rdr
    }

    /// The next record of the input: one pull of the underlying reader.
    pub fn next(&mut self) -> (r: Option<Result<Record, Error>>)
        ensures
            item_agrees(
                r,
                read_step(old(self).remaining(), RecordView::empty(), old(self).line()).outcome,
            ),
            final(self).remaining() == read_step(
                old(self).remaining(),
                RecordView::empty(),
                old(self).line(),
            ).rest,
            final(self).line() == read_step(
                old(self).remaining(),
                RecordView::empty(),
                old(self).line(),
            ).line,
    {
        match self.rdr.read_record() {
            Ok(Some(r)) => Some(Ok(r)),
            Ok(None) => None,
            Err(e) => Some(Err(e)),
        }
    }
}

/// The outcomes of all pulls of the reader, from the bytes that are left
/// and the record that is pending: the records in order, and the failure
/// that ends the sequence where there is one.
pub open spec fn read_all(bytes: Seq<u8>, acc: RecordView, line: nat) -> Seq<ReadOutcome>
    decreases bytes.len(), (if acc.is_empty() {
            0nat
        } else {
            1nat
        }),
{
    let step = read_step(bytes, acc, line);
    match step.outcome {
        ReadOutcome::End => Seq::empty(),
        ReadOutcome::Failure(e) => seq![ReadOutcome::Failure(e)],
        ReadOutcome::Item(r) => {
            proof {
                lemma_read_step_bounds(bytes, acc, line);
            }
            seq![ReadOutcome::Item(r)] + read_all(step.rest, RecordView::empty(), step.line)
        },
    }
}

/// Two errors that differ at most in the number of the line that they
/// name.
pub open spec fn same_error(e: ErrorView, f: ErrorView) -> bool {
    e == f || exists|i: nat, j: nat, text: Seq<char>|
        #![auto]
        e == ErrorView::NomError(nom_message(i, text)) && f == ErrorView::NomError(
            nom_message(j, text),
        )
}

/// Two outcomes that differ at most in the number of the line that a
/// failure names.
pub open spec fn same_outcome(a: ReadOutcome, b: ReadOutcome) -> bool {
    match a {
        ReadOutcome::End => b is End,
        ReadOutcome::Item(r) => b == ReadOutcome::Item(r),
        ReadOutcome::Failure(e) => b matches ReadOutcome::Failure(f) && same_error(e, f),
    }
}

/// Two sequences of outcomes that differ at most in the numbers of the
/// lines that failures name.
pub open spec fn same_outcomes(a: Seq<ReadOutcome>, b: Seq<ReadOutcome>) -> bool {
    a.len() == b.len() && forall|i: int| 0 <= i < a.len() ==> same_outcome(#[trigger] a[i], b[i])
}

/// What a line does to a record does not depend on its number, but for
/// the number that the refusal of a line names.
pub proof fn lemma_fold_line_number(line: Seq<u8>, acc: RecordView, n: nat, m: nat)
    ensures
        fold_line(line, acc, n) is Ok <==> fold_line(line, acc, m) is Ok,
        fold_line(line, acc, n) is Ok ==> fold_line(line, acc, n) == fold_line(line, acc, m),
        fold_line(line, acc, n) is Err ==> same_error(
            fold_line(line, acc, n)->Err_0,
            fold_line(line, acc, m)->Err_0,
        ),
{
}

/// A pull does not depend on the number that its lines are counted from,
/// but for the number that the refusal of a line names.
pub proof fn lemma_read_step_number(bytes: Seq<u8>, acc: RecordView, n: nat, m: nat)
    ensures
        read_step(bytes, acc, n).rest == read_step(bytes, acc, m).rest,
        read_step(bytes, acc, n).line - n == read_step(bytes, acc, m).line - m,
        same_outcome(read_step(bytes, acc, n).outcome, read_step(bytes, acc, m).outcome),
    decreases bytes.len(),
{
    if bytes.len() > 0 {
        lemma_line_len_bounds(bytes);
        let k = line_len(bytes) as int;
        let text = bytes.subrange(0, k);
        let rest = bytes.subrange(k, bytes.len() as int);
        if !valid_utf8(text) {
        } else if is_blank(decode_utf8(text)) {
            if acc.is_empty() {
                lemma_read_step_number(rest, acc, n + 1, m + 1);
            }
        } else {
            lemma_fold_line_number(text, acc, n + 1, m + 1);
            match fold_line(text, acc, n + 1) {
                Ok(next) => {
                    lemma_read_step_number(rest, next, n + 1, m + 1);
                },
                Err(e) => {},
            }
        }
    }
}

/// The outcomes of all pulls do not depend on the number that the lines
/// are counted from, but for the numbers that refusals name.
pub proof fn lemma_read_all_number(bytes: Seq<u8>, acc: RecordView, n: nat, m: nat)
    ensures
        same_outcomes(read_all(bytes, acc, n), read_all(bytes, acc, m)),
    decreases bytes.len(), (if acc.is_empty() {
            0nat
        } else {
            1nat
        }),
{
    lemma_read_step_number(bytes, acc, n, m);
    let s = read_step(bytes, acc, n);
    let t = read_step(bytes, acc, m);
    match s.outcome {
        ReadOutcome::End => {},
        ReadOutcome::Failure(e) => {},
        ReadOutcome::Item(r) => {
            lemma_read_step_bounds(bytes, acc, n);
            lemma_read_all_number(s.rest, RecordView::empty(), s.line, t.line);
            let a = read_all(s.rest, RecordView::empty(), s.line);
            let b = read_all(s.rest, RecordView::empty(), t.line);
            let x = seq![ReadOutcome::Item(r)] + a;
            let y = seq![ReadOutcome::Item(r)] + b;
            assert(read_all(bytes, acc, n) == x);
            assert(read_all(bytes, acc, m) == y);
            assert forall|i: int| 0 <= i < x.len() implies same_outcome(#[trigger] x[i], y[i]) by {
                if i > 0 {
                    assert(x[i] == a[i - 1]);
                    assert(y[i] == b[i - 1]);
                }
            }
        },
    }
}

/// A blank line: one line of whitespace that ends with a line feed.
pub open spec fn is_blank_line(b: Seq<u8>) -> bool {
    &&& b.len() > 0
    &&& b.last() == NEWLINE
    &&& forall|j: int| 0 <= j < b.len() - 1 ==> b[j] != NEWLINE
    &&& valid_utf8(b)
    &&& is_blank(decode_utf8(b))
}

/// A blank line is skipped while nothing is pending, and completes the
/// pending record otherwise.
pub proof fn lemma_read_blank_line(b: Seq<u8>, tail: Seq<u8>, acc: RecordView, n: nat)
    requires
        is_blank_line(b),
    ensures
        read_step(b + tail, acc, n) == (if acc.is_empty() {
            read_step(tail, acc, n + 1)
        } else {
            ReadStep { outcome: ReadOutcome::Item(acc), rest: tail, line: n + 1 }
        }),
{
    let bytes = b + tail;
    let m = b.len() as int;
    assert forall|j: int| 0 <= j < m - 1 implies bytes[j] != NEWLINE by {
        assert(bytes[j] == b[j]);
    }
    assert(bytes[m - 1] == b.last());
    lemma_line_len_is(bytes, m);
    assert(bytes.subrange(0, m) =~= b);
    assert(bytes.subrange(m, bytes.len() as int) =~= tail);
}

/// Blank lines collapse: wherever the reader stands, with a record
/// pending or not, a second blank line after a blank line changes nothing
/// of what is read from there on: the same records in the same order, and
/// the same failure where there is one, but for the number of the line
/// that it names.
pub proof fn law_blank_lines_collapse(
    first: Seq<u8>,
    second: Seq<u8>,
    tail: Seq<u8>,
    acc: RecordView,
    n: nat,
)
    requires
        is_blank_line(first),
        is_blank_line(second),
    ensures
        same_outcomes(
            read_all(first + second + tail, acc, n),
            read_all(first + tail, acc, n),
        ),
{
    let empty = RecordView::empty();
    assert(first + second + tail =~= first + (second + tail));
    lemma_read_blank_line(first, second + tail, acc, n);
    lemma_read_blank_line(first, tail, acc, n);
    lemma_read_blank_line(second, tail, empty, n + 1);
    lemma_read_all_number(tail, empty, n + 2, n + 1);
    let two = read_all(first + (second + tail), acc, n);
    let one = read_all(first + tail, acc, n);
    if acc.is_empty() {
        crate::record::lemma_empty_record(acc);
        assert(read_step(first + (second + tail), acc, n) == read_step(tail, empty, n + 2));
        assert(read_step(first + tail, acc, n) == read_step(tail, empty, n + 1));
        assert(two == read_all(tail, empty, n + 2));
        assert(one == read_all(tail, empty, n + 1));
    } else {
        let a = read_all(tail, empty, n + 2);
        let b = read_all(tail, empty, n + 1);
        assert(read_all(second + tail, empty, n + 1) == a);
        assert(two == seq![ReadOutcome::Item(acc)] + a);
        assert(one == seq![ReadOutcome::Item(acc)] + b);
        assert forall|i: int| 0 <= i < two.len() implies same_outcome(#[trigger] two[i], one[i]) by {
            if i > 0 {
                assert(two[i] == a[i - 1]);
                assert(one[i] == b[i - 1]);
            }
        }
    }
}

/// No empty record is read: every record among the outcomes has a field.
pub proof fn law_no_empty_record(bytes: Seq<u8>, acc: RecordView, n: nat)
    ensures
        forall|i: int|
            0 <= i < read_all(bytes, acc, n).len() ==> (#[trigger] read_all(bytes, acc, n)[i]
                matches ReadOutcome::Item(r) ==> !r.is_empty()),
    decreases bytes.len(), (if acc.is_empty() {
            0nat
        } else {
            1nat
        }),
{
    lemma_read_step_bounds(bytes, acc, n);
    let s = read_step(bytes, acc, n);
    match s.outcome {
        ReadOutcome::End => {},
        ReadOutcome::Failure(e) => {},
        ReadOutcome::Item(r) => {
            law_no_empty_record(s.rest, RecordView::empty(), s.line);
            let a = read_all(s.rest, RecordView::empty(), s.line);
            let x = read_all(bytes, acc, n);
            assert(x == seq![ReadOutcome::Item(r)] + a);
            assert forall|i: int| 0 <= i < x.len() implies (#[trigger] x[i] matches ReadOutcome::Item(
                q,
            ) ==> !q.is_empty()) by {
                if i > 0 {
                    assert(x[i] == a[i - 1]);
                }
            }
        },
    }
}

} // verus!
