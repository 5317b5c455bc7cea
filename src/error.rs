//! Errors of the store, the pool and the protocol.
use vstd::prelude::*;

verus! {

/// Kinds of failure.
#[derive(Debug, Clone, Copy, PartialEq, Eq, Structural)]
pub enum KVErrorKind {
    /// A key to remove is not in the store.
    KeyNotFound,
    /// A file or socket operation failed.
    IoError,
    /// An indexed position holds a record that is not a `Set`.
    UnexpectedCommandType,
    /// Bytes that should hold a record or a message do not.
    JsonError,
    /// The embedded database backend failed.
    SledError,
    /// A task of a worker pool panicked.
    ThreadPanic,
    /// The work-stealing pool could not be built.
    RayonError,
    /// A completion channel closed before it delivered a result.
    TokioSyncError,
    /// Anything else.
    UnknownError,
}

/// The text that describes each kind.
pub open spec fn kind_message(kind: KVErrorKind) -> Seq<char> {
    match kind {
        KVErrorKind::KeyNotFound => "Key not found"@,
        KVErrorKind::IoError => "Io Error"@,
        KVErrorKind::UnexpectedCommandType => "Unexpected Command Type for key"@,
        KVErrorKind::JsonError => "Json parsing error"@,
        KVErrorKind::SledError => "Sled Error"@,
        KVErrorKind::ThreadPanic => "ThreadPool thread Panicked"@,
        KVErrorKind::RayonError => "Rayon ThreadPool Error"@,
        KVErrorKind::TokioSyncError => "Tokio Channel Sync Error"@,
        KVErrorKind::UnknownError => "Unknown Error"@,
    }
}

impl KVErrorKind {
    /// The text that describes this kind.
    pub fn message(&self) -> (r: String)
        ensures
            r@ == kind_message(*self),
    {
        match self {
            KVErrorKind::KeyNotFound => "Key not found".to_owned(),
            KVErrorKind::IoError => "Io Error".to_owned(),
            KVErrorKind::UnexpectedCommandType => "Unexpected Command Type for key".to_owned(),
            KVErrorKind::JsonError => "Json parsing error".to_owned(),
            KVErrorKind::SledError => "Sled Error".to_owned(),
            KVErrorKind::ThreadPanic => "ThreadPool thread Panicked".to_owned(),
            KVErrorKind::RayonError => "Rayon ThreadPool Error".to_owned(),
            KVErrorKind::TokioSyncError => "Tokio Channel Sync Error".to_owned(),
            KVErrorKind::UnknownError => "Unknown Error".to_owned(),
        }
    }
}

/// An error of the store: its kind.
#[derive(Debug, Clone, Copy, PartialEq, Eq, Structural)]
pub struct KVError {
    pub inner: KVErrorKind,
}

impl KVError {
    /// An error of the given kind.
    pub fn new(kind: KVErrorKind) -> (r: KVError)
        ensures
            r.inner == kind,
    {
        KVError { inner: kind }
    }

    /// The kind of the error.
    pub fn kind(&self) -> (r: KVErrorKind)
        ensures
            r == self.inner,
    {
        self.inner
    }

    /// The text that describes the error.
    pub fn message(&self) -> (r: String)
        ensures
            r@ == kind_message(self.inner),
    {
        self.inner.message()
    }
}

impl From<KVErrorKind> for KVError {
    fn from(kind: KVErrorKind) -> (r: KVError) {
        KVError { inner: kind }
    }
}

impl vstd::std_specs::convert::FromSpecImpl<KVErrorKind> for KVError {
    open spec fn obeys_from_spec() -> bool {
        true
    }

    open spec fn from_spec(kind: KVErrorKind) -> KVError {
        KVError { inner: kind }
    }
}

} // verus!
