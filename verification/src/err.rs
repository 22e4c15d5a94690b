//! The errors that a transaction answers with.

use vstd::prelude::*;

verus! {

/// Why a transaction refused a request.
#[derive(Clone, Copy, Debug, PartialEq, Eq, Structural)]
pub enum Error {
    /// The transaction was committed or cancelled before
    TxClosed,
    /// The transaction is read-only
    TxNotWritable,
    /// A transaction that committed since this one began wrote one of its keys
    KeyWriteConflict,
    /// The key to insert is in the store already
    KeyAlreadyExists,
    /// The stored value is not the value that the request expects
    ValNotExpectedValue,
}

} // verus!
