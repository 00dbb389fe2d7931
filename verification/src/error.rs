//! The failure kinds that the storage and ingestion core can surface.

use vstd::prelude::*;

verus! {

/// A typed failure of the storage or ingestion core.
///
/// `PoolUnavailable` means the connection layer was used before it was
/// initialized. `Storage` is a query or schema failure; the operation that
/// met it was aborted. `Fetch` is a network failure or a non-success
/// response while retrieving remote content; it aborts an add operation.
/// An absent entry is never an `Error`: lookups return `Option` instead.
#[derive(Debug)]
pub enum Error {
    PoolUnavailable,
    Storage(String),
    Fetch(String),
}

impl Error {
    /// A human-readable description of the failure.
    pub fn message(&self) -> (r: String)
        ensures
            self is PoolUnavailable ==> r@ == "database not connected"@,
            self matches Error::Storage(m) ==> r@ == m@,
            self matches Error::Fetch(m) ==> r@ == m@,
    {
        match self {
            Error::PoolUnavailable => "database not connected".to_owned(),
            Error::Storage(m) => m.clone(),
            Error::Fetch(m) => m.clone(),
        }
    }
}

} // verus!
