use vstd::prelude::*;

use crate::rows::rows_view;

verus! {

/// The row that is written for a record whose raw fields are `fields`: the
/// fields themselves, or a single empty field when there are none, so that
/// the record cannot be taken for a blank line.
pub open spec fn written_row(fields: Seq<Seq<u8>>) -> Seq<Seq<u8>> {
    if fields.len() == 0 {
        seq![Seq::<u8>::empty()]
    } else {
        fields
    }
}

/// The decisions of an encoding session: the header row, made of the
/// record type's field names, is written once, before the first record.
pub struct EncodeSession {
    first_row: bool,
}

impl View for EncodeSession {
    /// Whether the header row is still to be written.
    type V = bool;

    closed spec fn view(&self) -> bool {
        self.first_row
    }
}

impl EncodeSession {
    /// A session that has written nothing yet.
    pub fn new() -> (r: EncodeSession)
        ensures
            r@,
    {
        EncodeSession { first_row: true }
    }

    /// Whether the header row has to be written before the next record.
    pub fn needs_header(&self) -> (r: bool)
        ensures
            r == self@,
    {
        self.first_row
    }

    /// Notes that the header row has been written.
    pub fn header_written(&mut self)
        ensures
            !final(self)@,
    {
        self.first_row = false;
    }

    /// The row to write for a record whose raw fields are `fields`.
    pub fn row_to_write(fields: Vec<Vec<u8>>) -> (r: Vec<Vec<u8>>)
        ensures
            rows_view(r@) == written_row(rows_view(fields@)),
    {
        if fields.len() == 0 {
            let e: Vec<u8> = Vec::new();
            let r = vec![e];
            assert(rows_view(r@) =~= seq![Seq::<u8>::empty()]);
            r
        } else {
            fields
        }
    }
}

} // verus!
