//! Typed CSV records: the column bookkeeping behind decoding rows into
//! record types and encoding record types into rows.
//!
//! The byte-level CSV format is handled by the `csv` crate, and the
//! per-type traversal by `rustc_serialize`. This library holds the logic
//! between them: which names a record type declares, how a header row is
//! reconciled with those names, how the raw fields of each row are placed at
//! the record's fields, and when a session ends.
pub mod error;
pub mod field_names;
pub mod mapping;
pub mod reader;
pub mod rows;
pub mod writer;

pub use error::ReadError;
pub use field_names::{is_positional_name, FieldNamesDecoder, FieldNamesEncoder};
pub use mapping::{exact_match, map_headers, match_matrix};
pub use reader::{DecodeSession, FieldEvent, HeaderStep, Phase, RowStep};
pub use writer::EncodeSession;
