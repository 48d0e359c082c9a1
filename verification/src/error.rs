//! The error kinds the library reports.

use vstd::prelude::*;

verus! {

/// Why a decoding, parsing or planning step was refused.
#[derive(Debug)]
pub enum Error {
    /// The first byte of a B-tree page header is none of 0x02, 0x05, 0x0a, 0x0d.
    BadPageType(u8),
    /// A page buffer is too short for its header or for its cell pointer array.
    MalformedPage,
    /// A record or cell is inconsistent: a reserved serial type, a header that
    /// does not end where it says, or a payload that runs short or long.
    MalformedRecord,
    /// The SQL text does not follow the accepted grammar.
    ParseError,
    /// The statement names a table the schema does not hold.
    TableNotFound,
    /// The statement names a column the table does not have.
    UnknownColumn,
    /// A cell of the wrong kind was met while walking a B-tree.
    UnexpectedCell,
}

} // verus!
