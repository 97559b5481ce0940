use vstd::prelude::*;

use crate::error::ReadError;
use crate::mapping::{
    column_mapping, exact_table, feeds_each_field_once, identity, is_match_table, lemma_in_order_in_range, lemma_reordered_in_range, map_headers,
};
use crate::rows::rows_view;
use crate::writer::written_row;

verus! {

/// Where a decoding session stands.
#[derive(Clone, Copy, Debug, PartialEq, Eq, Structural)]
pub enum Phase {
    /// The header row has not been read yet.
    AwaitingHeaders,
    /// The header row is read; the field names of the record type are needed.
    AwaitingFieldNames,
    /// Headers and field names are reconciled; rows are being decoded.
    Rows,
    /// The session has ended, cleanly or with an error, and yields nothing more.
    Done,
}

/// One answer of the CSV parser when asked for the next field.
#[derive(Debug)]
pub enum FieldEvent {
    /// The raw bytes of a field.
    Data(Vec<u8>),
    /// The current record has ended.
    EndOfRecord,
    /// The input has ended.
    EndOfInput,
    /// The parser failed.
    Failed(csv::Error),
}

/// What a field event is, with the bytes of a field as a sequence.
pub enum FieldSignal {
    Data(Seq<u8>),
    EndOfRecord,
    EndOfInput,
    Failed(csv::Error),
}

impl View for FieldEvent {
    type V = FieldSignal;

    open spec fn view(&self) -> FieldSignal {
        match self {
            FieldEvent::Data(b) => FieldSignal::Data(b@),
            FieldEvent::EndOfRecord => FieldSignal::EndOfRecord,
            FieldEvent::EndOfInput => FieldSignal::EndOfInput,
            FieldEvent::Failed(e) => FieldSignal::Failed(*e),
        }
    }
}

/// What the session made of a header row.
#[derive(Debug)]
pub enum HeaderStep {
    /// The headers are kept; the field names of the record type are needed next.
    FieldNamesNeeded,
    /// The header row is empty: the input holds no records.
    NoData,
    /// The header row was processed before; nothing changed.
    AlreadyProcessed,
    /// The header row could not be read.
    Failed(ReadError),
}

/// What the session made of one field event of a row.
#[derive(Debug)]
pub enum RowStep {
    /// The field was taken; more are needed to complete the row.
    Continue,
    /// The row is complete: its raw fields, placed in the record's field order.
    Record(Vec<Vec<u8>>),
    /// There are no more rows.
    End,
    /// The row is malformed or could not be read; the session has ended.
    Failed(ReadError),
}

/// What a row step is, with the fields of a record as sequences.
pub enum RowOutcome {
    Continue,
    Record(Seq<Seq<u8>>),
    End,
    Failed(ReadError),
}

impl View for RowStep {
    type V = RowOutcome;

    open spec fn view(&self) -> RowOutcome {
        match self {
            RowStep::Continue => RowOutcome::Continue,
            RowStep::Record(r) => RowOutcome::Record(rows_view(r@)),
            RowStep::End => RowOutcome::End,
            RowStep::Failed(e) => RowOutcome::Failed(*e),
        }
    }
}

/// The state of a decoding session.
pub struct DecodeState {
    pub reorder_columns: bool,
    pub ignore_unused_columns: bool,
    pub phase: Phase,
    /// The header row, once read.
    pub headers: Seq<Seq<u8>>,
    /// For each column, the field it feeds, once reconciled.
    pub mapping: Seq<Option<usize>>,
    /// The number of field names of the record type, once known.
    pub field_count: nat,
    /// The raw fields read so far in the current row.
    pub row: Seq<Seq<u8>>,
}

/// The record that the raw fields `raw` of a row make: every field of the
/// record starts empty, and each column that feeds a field puts its bytes
/// there.
pub open spec fn placed(mapping: Seq<Option<usize>>, field_count: nat, raw: Seq<Seq<u8>>) -> Seq<Seq<u8>>
    decreases raw.len(),
{
    if raw.len() == 0 {
        Seq::new(field_count, |i: int| Seq::<u8>::empty())
    } else {
        let before = placed(mapping, field_count, raw.drop_last());
        match mapping[raw.len() - 1] {
            Some(f) => if f < field_count {
                before.update(f as int, raw.last())
            } else {
                before
            },
            None => before,
        }
    }
}

/// A session that has read nothing yet.
pub open spec fn initial_state(reorder_columns: bool, ignore_unused_columns: bool) -> DecodeState {
    DecodeState {
        reorder_columns,
        ignore_unused_columns,
        phase: Phase::AwaitingHeaders,
        headers: Seq::empty(),
        mapping: Seq::empty(),
        field_count: 0,
        row: Seq::empty(),
    }
}

/// The session `s` after it is handed the result of reading the header
/// row. Only the first header row counts: later ones change nothing.
pub open spec fn after_headers(s: DecodeState, headers: Result<Seq<Seq<u8>>, csv::Error>) -> (
    DecodeState,
    HeaderStep,
) {
    if s.phase != Phase::AwaitingHeaders {
        (s, HeaderStep::AlreadyProcessed)
    } else {
        match headers {
            Err(e) => (DecodeState { phase: Phase::Done, ..s }, HeaderStep::Failed(ReadError::Codec(e))),
            Ok(h) => if h.len() == 0 {
                (DecodeState { phase: Phase::Done, ..s }, HeaderStep::NoData)
            } else {
                (
                    DecodeState { phase: Phase::AwaitingFieldNames, headers: h, ..s },
                    HeaderStep::FieldNamesNeeded,
                )
            },
        }
    }
}

/// The session `s`, which awaits field names, after it is handed the
/// number of field names of the record type (or the failure to find them)
/// and the table of which header matches which name.
pub open spec fn after_field_names(s: DecodeState, field_count: Result<nat, csv::Error>, m: Seq<Seq<bool>>) -> (
    DecodeState,
    Result<(), ReadError>,
) {
    match field_count {
        Err(e) => (DecodeState { phase: Phase::Done, ..s }, Err(ReadError::Codec(e))),
        Ok(n) => match column_mapping(m, n, s.reorder_columns, s.ignore_unused_columns) {
            Ok(mapping) => (
                DecodeState { phase: Phase::Rows, mapping, field_count: n, row: Seq::empty(), ..s },
                Ok(()),
            ),
            Err(e) => (DecodeState { phase: Phase::Done, ..s }, Err(e)),
        },
    }
}

/// Whether a new row is read, given whether the parser has reached the end
/// of its input; the session ends when none is.
pub open spec fn row_starts(s: DecodeState, input_done: bool) -> (DecodeState, bool) {
    if s.phase == Phase::Rows && !input_done {
        (DecodeState { row: Seq::empty(), ..s }, true)
    } else {
        (DecodeState { phase: Phase::Done, ..s }, false)
    }
}

/// The session `s`, in the middle of a row, after one field event.
///
/// A field beyond the last column is an error. The end of a record (or of
/// the input) completes the row, unless no field was read in it or the
/// record has no fields: then the rows are over.
pub open spec fn fed(s: DecodeState, ev: FieldSignal) -> (DecodeState, RowOutcome) {
    match ev {
        FieldSignal::Data(b) => if s.row.len() < s.mapping.len() {
            (DecodeState { row: s.row.push(b), ..s }, RowOutcome::Continue)
        } else {
            (DecodeState { phase: Phase::Done, ..s }, RowOutcome::Failed(ReadError::ExtraDataColumns))
        },
        FieldSignal::Failed(e) => (DecodeState { phase: Phase::Done, ..s }, RowOutcome::Failed(ReadError::Codec(e))),
        _ => if s.row.len() == 0 || s.field_count == 0 {
            (DecodeState { phase: Phase::Done, ..s }, RowOutcome::End)
        } else {
            (
                DecodeState { row: Seq::empty(), ..s },
                RowOutcome::Record(placed(s.mapping, s.field_count, s.row)),
            )
        },
    }
}

/// The session `s` after the fields `fields` of a row are handed to it one
/// by one, stopping at the first step that is not `Continue`.
pub open spec fn fed_all(s: DecodeState, fields: Seq<Seq<u8>>) -> (DecodeState, RowOutcome)
    decreases fields.len(),
{
    if fields.len() == 0 {
        (s, RowOutcome::Continue)
    } else {
        let prev = fed_all(s, fields.drop_last());
        if prev.1 is Continue {
            fed(prev.0, FieldSignal::Data(fields.last()))
        } else {
            prev
        }
    }
}

/// The decisions of a decoding session: when the header row is read, how
/// it is reconciled with the field names of the record type, where each raw
/// field of a row goes, and when the session ends. The caller reads the CSV
/// input and decodes the records; an ended session never resumes.
pub struct DecodeSession {
    reorder_columns: bool,
    ignore_unused_columns: bool,
    phase: Phase,
    headers: Vec<Vec<u8>>,
    column_mapping: Vec<Option<usize>>,
    field_count: usize,
    record: Vec<Vec<u8>>,
    column: usize,
    row: Ghost<Seq<Seq<u8>>>,
}

impl View for DecodeSession {
    type V = DecodeState;

    closed spec fn view(&self) -> DecodeState {
        DecodeState {
            reorder_columns: self.reorder_columns,
            ignore_unused_columns: self.ignore_unused_columns,
            phase: self.phase,
            headers: rows_view(self.headers@),
            mapping: self.column_mapping@,
            field_count: self.field_count as nat,
            row: self.row@,
        }
    }
}

fn empty_record(n: usize) -> (r: Vec<Vec<u8>>)
    ensures
        rows_view(r@) == Seq::new(n as nat, |i: int| Seq::<u8>::empty()),
{
    let mut v: Vec<Vec<u8>> = Vec::new();
    let mut i: usize = 0;
    while i < n
        invariant
            i <= n,
            v.len() == i,
            forall|k: int| 0 <= k < i ==> (#[trigger] v@[k])@ == Seq::<u8>::empty(),
        decreases n - i,
    {
        let e: Vec<u8> = Vec::new();
        assert(e@ =~= Seq::<u8>::empty());
        v.push(e);
        i += 1;
    }
    assert(rows_view(v@) =~= Seq::new(n as nat, |k: int| Seq::<u8>::empty()));
    v
}

impl DecodeSession {
    /// The internal consistency of a session: the record under construction
    /// is what the raw fields read so far make.
    pub closed spec fn wf(&self) -> bool {
        &&& self.column == self.row@.len()
        &&& self.column <= self.column_mapping@.len()
        &&& forall|c: int|
            0 <= c < self.column_mapping@.len() ==> match #[trigger] self.column_mapping@[c] {
                Some(f) => f < self.field_count,
                None => true,
            }
        &&& rows_view(self.record@) == placed(self.column_mapping@, self.field_count as nat, self.row@)
    }

    /// A session that has read nothing yet, with the given policy.
    pub fn new(reorder_columns: bool, ignore_unused_columns: bool) -> (r: DecodeSession)
        ensures
            r.wf(),
            r@ == initial_state(reorder_columns, ignore_unused_columns),
    {
        let r = DecodeSession {
            reorder_columns,
            ignore_unused_columns,
            phase: Phase::AwaitingHeaders,
            headers: Vec::new(),
            column_mapping: Vec::new(),
            field_count: 0,
            record: Vec::new(),
            column: 0,
            row: Ghost(Seq::empty()),
        };
        assert(rows_view(r.record@) =~= placed(r.column_mapping@, 0, r.row@));
        assert(r@.headers =~= Seq::<Seq<u8>>::empty());
        r
    }

    /// Whether the header row still has to be read.
    pub fn needs_headers(&self) -> (r: bool)
        ensures
            r == (self@.phase == Phase::AwaitingHeaders),
    {
        self.phase == Phase::AwaitingHeaders
    }

    /// Whether the session has ended.
    pub fn is_done(&self) -> (r: bool)
        ensures
            r == (self@.phase == Phase::Done),
    {
        self.phase == Phase::Done
    }

    /// The header row, as read.
    pub fn headers(&self) -> (r: &Vec<Vec<u8>>)
        ensures
            rows_view(r@) == self@.headers,
    {
        &self.headers
    }

    /// Hands the session the result of reading the header row. Only the
    /// first call has any effect.
    pub fn accept_headers(&mut self, headers: Result<Vec<Vec<u8>>, csv::Error>) -> (r: HeaderStep)
        requires
            old(self).wf(),
        ensures
            final(self).wf(),
            (final(self)@, r) == after_headers(
                old(self)@,
                match headers {
                    Ok(h) => Ok(rows_view(h@)),
                    Err(e) => Err(e),
                },
            ),
    {
        if self.phase != Phase::AwaitingHeaders {
            return HeaderStep::AlreadyProcessed;
        }
        match headers {
            Err(e) => {
                self.phase = Phase::Done;
                HeaderStep::Failed(ReadError::Codec(e))
            },
            Ok(h) => {
                if h.len() == 0 {
                    self.phase = Phase::Done;
                    HeaderStep::NoData
                } else {
                    self.headers = h;
                    self.phase = Phase::AwaitingFieldNames;
                    HeaderStep::FieldNamesNeeded
                }
            },
        }
    }

    /// Hands the session the field names of the record type (or the failure
    /// to find them) and the table of which header matches which field name
    /// (see `match_matrix`), and reconciles the two.
    pub fn accept_field_names(
        &mut self,
        field_names: Result<Vec<Vec<u8>>, csv::Error>,
        matches: &Vec<Vec<bool>>,
    ) -> (r: Result<(), ReadError>)
        requires
            old(self).wf(),
            old(self)@.phase == Phase::AwaitingFieldNames,
            field_names matches Ok(n) ==> is_match_table(rows_view(matches@), n.len() as nat),
        ensures
            final(self).wf(),
            (final(self)@, r) == after_field_names(
                old(self)@,
                match field_names {
                    Ok(n) => Ok(n.len() as nat),
                    Err(e) => Err(e),
                },
                rows_view(matches@),
            ),
    {
        match field_names {
            Err(e) => {
                self.phase = Phase::Done;
                Err(ReadError::Codec(e))
            },
            Ok(names) => {
                let n = names.len();
                match map_headers(matches, n, self.reorder_columns, self.ignore_unused_columns) {
                    Err(e) => {
                        self.phase = Phase::Done;
                        Err(e)
                    },
                    Ok(mapping) => {
                        proof {
                            assert(column_mapping(rows_view(matches@), n as nat, self.reorder_columns, self.ignore_unused_columns) == Ok::<Seq<Option<usize>>, ReadError>(mapping@));
                        }
                        self.column_mapping = mapping;
                        self.field_count = n;
                        self.record = empty_record(n);
                        self.column = 0;
                        self.row = Ghost(Seq::empty());
                        self.phase = Phase::Rows;
                        proof {
                            lemma_mapping_in_range(rows_view(matches@), n as nat, self.reorder_columns, self.ignore_unused_columns);
                        }
                        Ok(())
                    },
                }
            },
        }
    }

    /// Decides whether a new row is read, given whether the parser has
    /// reached the end of its input.
    pub fn start_row(&mut self, input_done: bool) -> (r: bool)
        requires
            old(self).wf(),
        ensures
            final(self).wf(),
            (final(self)@, r) == row_starts(old(self)@, input_done),
    {
        if self.phase == Phase::Rows && !input_done {
            self.record = empty_record(self.field_count);
            self.column = 0;
            self.row = Ghost(Seq::empty());
            true
        } else {
            self.phase = Phase::Done;
            false
        }
    }

    /// Hands the session the next field event of the current row.
    pub fn feed(&mut self, ev: FieldEvent) -> (r: RowStep)
        requires
            old(self).wf(),
            old(self)@.phase == Phase::Rows,
        ensures
            final(self).wf(),
            (final(self)@, r@) == fed(old(self)@, ev@),
    {
        match ev {
            FieldEvent::Data(bytes) => {
                if self.column < self.column_mapping.len() {
                    let ghost raw = self.row@.push(bytes@);
                    let ghost before = rows_view(self.record@);
                    proof {
                        lemma_placed_len(self.column_mapping@, self.field_count as nat, self.row@);
                    }
                    match self.column_mapping[self.column] {
                        Some(f) => {
                            assert(self.column_mapping@[self.column as int] == Some(f));
                            self.record.set(f, bytes);
                            assert(rows_view(self.record@) =~= before.update(f as int, raw.last()));
                        },
                        None => {},
                    }
                    self.column = self.column + 1;
                    self.row = Ghost(raw);
                    assert(raw.drop_last() =~= old(self).row@);
                    RowStep::Continue
                } else {
                    self.phase = Phase::Done;
                    RowStep::Failed(ReadError::ExtraDataColumns)
                }
            },
            FieldEvent::Failed(e) => {
                self.phase = Phase::Done;
                RowStep::Failed(ReadError::Codec(e))
            },
            _ => {
                if self.column == 0 || self.field_count == 0 {
                    self.phase = Phase::Done;
                    RowStep::End
                } else {
                    let mut record = empty_record(self.field_count);
                    std::mem::swap(&mut record, &mut self.record);
                    self.column = 0;
                    self.row = Ghost(Seq::empty());
                    RowStep::Record(record)
                }
            },
        }
    }

    /// Reports whether the record of the last row decoded; a failure ends
    /// the session.
    pub fn finish_record(&mut self, decoded: bool)
        requires
            old(self).wf(),
        ensures
            final(self).wf(),
            final(self)@ == if decoded {
                old(self)@
            } else {
                DecodeState { phase: Phase::Done, ..old(self)@ }
            },
    {
        if !decoded {
            self.phase = Phase::Done;
        }
    }
}

proof fn lemma_placed_len(mapping: Seq<Option<usize>>, field_count: nat, raw: Seq<Seq<u8>>)
    ensures
        placed(mapping, field_count, raw).len() == field_count,
    decreases raw.len(),
{
    if raw.len() > 0 {
        lemma_placed_len(mapping, field_count, raw.drop_last());
    }
}

proof fn lemma_mapping_in_range(m: Seq<Seq<bool>>, nf: nat, reorder: bool, ignore_unused: bool)
    ensures
        column_mapping(m, nf, reorder, ignore_unused) matches Ok(mapping) ==> forall|c: int|
            0 <= c < mapping.len() ==> match #[trigger] mapping[c] {
                Some(f) => f < nf,
                None => true,
            },
{
    lemma_reordered_in_range(m, nf as int);
    lemma_in_order_in_range(m, nf as int);
}

/// Under a mapping that feeds every field from exactly one column, the
/// record made of a row's raw fields holds, at each field, the bytes of the
/// column that feeds it, and stays empty at a field whose column the row does
/// not reach.
pub proof fn lemma_placed_permutes(mapping: Seq<Option<usize>>, field_count: nat, raw: Seq<Seq<u8>>)
    requires
        feeds_each_field_once(mapping, field_count),
        raw.len() <= mapping.len(),
    ensures
        placed(mapping, field_count, raw).len() == field_count,
        forall|c: int|
            0 <= c < raw.len() && #[trigger] mapping[c] is Some ==> placed(mapping, field_count, raw)[mapping[c]->0 as int]
                == raw[c],
        forall|f: int|
            0 <= f < field_count && (forall|c: int| 0 <= c < raw.len() ==> #[trigger] mapping[c] != Some(f as usize))
                ==> placed(mapping, field_count, raw)[f] == Seq::<u8>::empty(),
    decreases raw.len(),
{
    lemma_placed_len(mapping, field_count, raw);
    if raw.len() > 0 {
        let prev = raw.drop_last();
        lemma_placed_permutes(mapping, field_count, prev);
        let last = raw.len() - 1;
        assert forall|c: int| 0 <= c < raw.len() && #[trigger] mapping[c] is Some implies placed(
            mapping,
            field_count,
            raw,
        )[mapping[c]->0 as int] == raw[c] by {
            if c < last {
                assert(prev[c] == raw[c]);
                if mapping[last] is Some {
                    assert(mapping[c] != mapping[last]);
                }
            }
        }
        assert forall|f: int|
            0 <= f < field_count && (forall|c: int| 0 <= c < raw.len() ==> #[trigger] mapping[c] != Some(f as usize))
                implies placed(mapping, field_count, raw)[f] == Seq::<u8>::empty() by {
            assert(forall|c: int| 0 <= c < prev.len() ==> #[trigger] mapping[c] != Some(f as usize));
            assert(mapping[last] != Some(f as usize));
        }
    }
}

/// Only the first header row of a session is reconciled: once one has been
/// handed over, whatever the session made of it, handing over another one
/// changes nothing, also after the field names are in.
pub proof fn lemma_headers_processed_once(
    s: DecodeState,
    first: Result<Seq<Seq<u8>>, csv::Error>,
    again: Result<Seq<Seq<u8>>, csv::Error>,
    field_count: Result<nat, csv::Error>,
    m: Seq<Seq<bool>>,
)
    requires
        s.phase == Phase::AwaitingHeaders,
    ensures
        after_headers(after_headers(s, first).0, again) == (after_headers(s, first).0, HeaderStep::AlreadyProcessed),
        after_headers(after_field_names(after_headers(s, first).0, field_count, m).0, again) == (
            after_field_names(after_headers(s, first).0, field_count, m).0,
            HeaderStep::AlreadyProcessed,
        ),
{
}

/// An empty header row means that the input holds no records: the session
/// ends without an error, and no row is ever read.
pub proof fn lemma_empty_header_row_yields_no_rows(s: DecodeState, input_done: bool)
    requires
        s.phase == Phase::AwaitingHeaders,
    ensures
        after_headers(s, Ok(Seq::empty())).1 == HeaderStep::NoData,
        after_headers(s, Ok(Seq::empty())).0.phase == Phase::Done,
        !row_starts(after_headers(s, Ok(Seq::empty())).0, input_done).1,
{
}

proof fn lemma_fields_taken(s: DecodeState, fields: Seq<Seq<u8>>)
    requires
        s.phase == Phase::Rows,
        s.row.len() + fields.len() <= s.mapping.len(),
    ensures
        fed_all(s, fields) == (DecodeState { row: s.row + fields, ..s }, RowOutcome::Continue),
    decreases fields.len(),
{
    if fields.len() > 0 {
        lemma_fields_taken(s, fields.drop_last());
        assert((s.row + fields.drop_last()).push(fields.last()) =~= s.row + fields);
    } else {
        assert(s.row + fields =~= s.row);
    }
}

/// A row with more fields than the header row has columns fails with
/// `ExtraDataColumns` at the first field beyond the last column; every
/// field before it is taken.
pub proof fn lemma_extra_data_columns(s: DecodeState, fields: Seq<Seq<u8>>)
    requires
        s.phase == Phase::Rows,
        s.row.len() == 0,
        fields.len() > s.mapping.len(),
    ensures
        fed_all(s, fields.take(s.mapping.len() as int)).1 == RowOutcome::Continue,
        fed_all(s, fields).1 == RowOutcome::Failed(ReadError::ExtraDataColumns),
        fed_all(s, fields).0.phase == Phase::Done,
    decreases fields.len(),
{
    let n = s.mapping.len() as int;
    lemma_fields_taken(s, fields.take(n));
    if fields.len() == n + 1 {
        lemma_fields_taken(s, fields.drop_last());
        assert(fields.drop_last() =~= fields.take(n));
    } else {
        lemma_extra_data_columns(s, fields.drop_last());
        assert(fields.drop_last().take(n) =~= fields.take(n));
    }
}

proof fn lemma_identity_places(n: nat, fields: Seq<Seq<u8>>, k: int)
    requires
        fields.len() == n,
        n <= usize::MAX,
        0 <= k <= n,
    ensures
        placed(identity(n), n, fields.take(k)) == Seq::new(
            n,
            |i: int|
                if i < k {
                    fields[i]
                } else {
                    Seq::<u8>::empty()
                },
        ),
    decreases k,
{
    let target = Seq::new(n, |i: int| if i < k { fields[i] } else { Seq::<u8>::empty() });
    if k == 0 {
        assert(placed(identity(n), n, fields.take(0)) =~= target);
    } else {
        lemma_identity_places(n, fields, k - 1);
        assert(fields.take(k).drop_last() =~= fields.take(k - 1));
        assert(identity(n)[k - 1] == Some((k - 1) as usize));
        assert(fields.take(k).last() == fields[k - 1]);
        assert(placed(identity(n), n, fields.take(k)) =~= target);
    }
}

/// Encoding a record and decoding it again under the default policy gives
/// back the raw fields that were encoded: the header row that the encoder
/// writes (the record type's field names) reconciles with those same names,
/// and the row written for the record decodes into exactly its fields. Every
/// field must be named, and there must be at least one, as an empty header
/// row means that there are no records.
pub proof fn lemma_round_trip(names: Seq<Seq<u8>>, fields: Seq<Seq<u8>>)
    requires
        0 < names.len() <= usize::MAX,
        fields.len() == names.len(),
    ensures
        ({
            let s1 = after_headers(initial_state(false, false), Ok(names));
            let s2 = after_field_names(s1.0, Ok(names.len()), exact_table(names, names));
            let s3 = row_starts(s2.0, false);
            let s4 = fed_all(s3.0, written_row(fields));
            &&& s1.1 == HeaderStep::FieldNamesNeeded
            &&& s2.1 == Ok::<(), ReadError>(())
            &&& s3.1
            &&& s4.1 == RowOutcome::Continue
            &&& fed(s4.0, FieldSignal::EndOfRecord).1 == RowOutcome::Record(fields)
        }),
{
    let n = names.len();
    let m = exact_table(names, names);
    assert(forall|i: int| 0 <= i < n ==> #[trigger] m[i][i]);
    assert(column_mapping(m, n, false, false) == Ok::<Seq<Option<usize>>, ReadError>(identity(n)));
    let s1 = after_headers(initial_state(false, false), Ok(names));
    let s2 = after_field_names(s1.0, Ok(n), m);
    assert(s2.0.mapping == identity(n));
    assert(s2.0.phase == Phase::Rows);
    let s3 = row_starts(s2.0, false);
    assert(s3.0.row.len() == 0);
    assert(written_row(fields) == fields);
    lemma_fields_taken(s3.0, fields);
    assert(Seq::<Seq<u8>>::empty() + fields =~= fields);
    lemma_identity_places(n, fields, n as int);
    assert(fields.take(n as int) =~= fields);
    assert(placed(identity(n), n, fields) =~= fields);
}

} // verus!
