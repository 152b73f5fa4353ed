use vstd::prelude::*;

verus! {

/// The error taxonomy of the store and synchronization engine.
#[derive(Debug, Clone, Copy, PartialEq, Eq, Structural)]
pub enum Error {
    /// The store could not be opened or initialized.
    StorageInit,
    /// A key was looked up and is not present; callers branch on this.
    NotFound,
    /// A stored record could not be decoded (version skew or corruption).
    Serialization,
    /// A write could not be applied; the caller may retry the operation.
    Write,
    /// A relay rejected or could not accept subscription filters.
    Subscription,
    /// An event carries an id of the wrong byte length.
    MalformedId,
}

impl Error {
    /// A short human-readable description of the error.
    pub fn message(&self) -> (r: &'static str)
        ensures
            r@.len() > 0,
    {
        let s = match self {
            Error::StorageInit => "impossible to initialize the store",
            Error::NotFound => "value not found",
            Error::Serialization => "impossible to deserialize",
            Error::Write => "impossible to put",
            Error::Subscription => "impossible to subscribe",
            Error::MalformedId => "malformed event id",
        };
        proof {
            reveal_strlit("impossible to initialize the store");
            reveal_strlit("value not found");
            reveal_strlit("impossible to deserialize");
            reveal_strlit("impossible to put");
            reveal_strlit("impossible to subscribe");
            reveal_strlit("malformed event id");
        }
        s
    }
}

} // verus!
