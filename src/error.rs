use vstd::prelude::*;
use vstd::string::to_string_from_display_ensures;

verus! {

/// The error type of `serde_json`, carried by `IdxError::JsonError`.
#[verifier::external_type_specification]
#[verifier::external_body]
pub struct ExJsonError(serde_json::Error);

/// What can go wrong while building or querying an index.
#[derive(Debug)]
pub enum IdxError {
    /// The store failed, or handed back a name that is not a valid object
    /// name.
    StorageError(Message),
    /// A structured object could not be encoded or decoded.
    JsonError(serde_json::Error),
    /// A keymap failed for an object, or a score was not a number.
    IndexingError(IndexingError),
}

/// The result of an operation on an index or a store.
pub type IdxResult<T> = Result<T, IdxError>;

/// A plain error message.
#[derive(Debug)]
pub struct Message(pub String);

/// The failure of a caller's keymap or scoring function.
#[derive(Debug)]
pub struct IndexingError {
    message: String,
}

/// The result of a caller's keymap.
pub type IndexingResult<T> = Result<T, IndexingError>;

impl Message {
    /// The message's text.
    pub fn to_string(&self) -> (r: String)
        ensures
            r@ == self.0@,
    {
        self.0.clone()
    }
}

impl IndexingError {
    /// The text of this error, as `to_string` gives it.
    pub closed spec fn text(&self) -> Seq<char> {
        self.message@
    }

    /// An error with the message `msg`.
    pub fn new(msg: String) -> (r: Self)
        ensures
            r.text() == msg@,
    {
        Self { message: msg }
    }

    /// The message given at construction.
    pub fn to_string(&self) -> (r: String)
        ensures
            r@ == self.text(),
    {
        self.message.clone()
    }
}

impl IdxError {
    /// A storage error that carries the text of `e`.
    pub fn storage_error<T: std::fmt::Display>(e: T) -> (r: Self)
        ensures
            r matches IdxError::StorageError(m) && to_string_from_display_ensures::<T>(&e, m.0),
    {
        Self::StorageError(Message(e.to_string()))
    }

    /// A storage error with the message `s`.
    pub fn storage_error_msg(s: String) -> (r: Self)
        ensures
            r matches IdxError::StorageError(m) && m.0@ == s@,
    {
        Self::StorageError(Message(s))
    }

    /// A description of this error for people: its kind, then its message.
    pub fn to_string(&self) -> (r: String)
        ensures
            self matches IdxError::StorageError(m) ==> r@ == "Storage error: "@ + m.0@,
            self matches IdxError::JsonError(_) ==> "JSON error: "@.is_prefix_of(r@),
            self matches IdxError::IndexingError(e) ==> r@ == "Indexing error: "@ + e.text(),
    {
        match self {
            IdxError::StorageError(m) => String::from_str("Storage error: ").concat(m.0.as_str()),
            IdxError::JsonError(e) => String::from_str("JSON error: ").concat(e.to_string().as_str()),
            IdxError::IndexingError(e) => String::from_str("Indexing error: ").concat(
                e.message.as_str(),
            ),
        }
    }
}

impl From<serde_json::Error> for IdxError {
    fn from(err: serde_json::Error) -> (r: Self) {
        IdxError::JsonError(err)
    }
}

impl vstd::std_specs::convert::FromSpecImpl<serde_json::Error> for IdxError {
    open spec fn obeys_from_spec() -> bool {
        true
    }

    open spec fn from_spec(err: serde_json::Error) -> IdxError {
        IdxError::JsonError(err)
    }
}

impl From<IndexingError> for IdxError {
    fn from(e: IndexingError) -> (r: Self) {
        IdxError::IndexingError(e)
    }
}

impl vstd::std_specs::convert::FromSpecImpl<IndexingError> for IdxError {
    open spec fn obeys_from_spec() -> bool {
        true
    }

    open spec fn from_spec(e: IndexingError) -> IdxError {
        IdxError::IndexingError(e)
    }
}

} // verus!
