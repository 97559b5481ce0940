use vstd::prelude::*;

verus! {

/// Declares `csv::Error`, the error type of the `csv` crate, so that errors
/// of the CSV parser and of record decoding can pass through the sessions
/// unchanged. Nothing inside it is read.
#[verifier::external_type_specification]
#[verifier::external_body]
pub struct ExCsvError(csv::Error);

/// Why a decoding session stopped with an error.
#[derive(Debug)]
pub enum ReadError {
    /// The header row has a number of columns that the policy does not allow.
    HeaderCountMismatch { expected: usize, actual: usize },
    /// Some field name found no matching header.
    HeaderNameMismatch,
    /// A row holds more fields than there are columns in the header row.
    ExtraDataColumns,
    /// The CSV parser, or the decoding of a record, failed.
    Codec(csv::Error),
}

} // verus!
