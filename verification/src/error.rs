use vstd::prelude::*;

verus! {

/// The error taxonomy of the catalogue core.
///
/// `ProviderUnavailable` marks a failed provider fetch (retryable, never
/// corrupts the store). `NotFound` marks a missing row for a requested id.
/// `ConflictOnInsert` marks a natural-key uniqueness violation on insert or
/// update. `MalformedCursor` marks an undecodable pagination token; feed
/// queries recover from it by substituting the default bound. `StoreUnavailable`
/// is reserved for callers that put this store behind a fallible connection.
/// `InvalidPagination` marks a request that sets both `first` and `last`, or a
/// negative page size.
#[derive(Clone, Copy, Debug, PartialEq, Eq, Structural)]
pub enum Error {
    ProviderUnavailable,
    NotFound,
    ConflictOnInsert,
    MalformedCursor,
    StoreUnavailable,
    InvalidPagination,
}

impl Error {
    /// A short human-readable name for the error, for callers that log it.
    pub fn message(&self) -> (r: &'static str)
        ensures
            r@ =~= match *self {
                Error::ProviderUnavailable => "provider unavailable"@,
                Error::NotFound => "not found"@,
                Error::ConflictOnInsert => "conflict on insert"@,
                Error::MalformedCursor => "malformed cursor"@,
                Error::StoreUnavailable => "store unavailable"@,
                Error::InvalidPagination => "invalid pagination arguments"@,
            },
    {
        match *self {
            Error::ProviderUnavailable => "provider unavailable",
            Error::NotFound => "not found",
            Error::ConflictOnInsert => "conflict on insert",
            Error::MalformedCursor => "malformed cursor",
            Error::StoreUnavailable => "store unavailable",
            Error::InvalidPagination => "invalid pagination arguments",
        }
    }
}

} // verus!
