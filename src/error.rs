//! Errors of the thread harness.
use vstd::prelude::*;

verus! {

#[derive(Debug, PartialEq, Eq)]
pub enum Error {
    /// The host environment reported an error, with its message.
    JsError(String),
    /// A handle or identifier that names nothing.
    InvalidHandle(String),
    /// A worker message of a type nobody knows, with that type.
    UnknownMessage(String),
    /// A worker message without a field its type needs, with the field's name.
    MissingField(String),
}

impl Error {
    /// The text that describes the error.
    pub fn message(&self) -> (r: String)
        ensures
            r@ == match self {
                Error::JsError(m) => m@,
                Error::InvalidHandle(m) => m@,
                Error::UnknownMessage(kind) => "unknown worker message type: "@ + kind@,
                Error::MissingField(field) => "worker message lacks field: "@ + field@,
            },
    {
        match self {
            Error::JsError(m) => m.clone(),
            Error::InvalidHandle(m) => m.clone(),
            Error::UnknownMessage(kind) => {
                let mut s = String::new();
                s.append("unknown worker message type: ");
                s.append(kind.as_str());
                s
            },
            Error::MissingField(field) => {
                let mut s = String::new();
                s.append("worker message lacks field: ");
                s.append(field.as_str());
                s
            },
        }
    }
}

} // verus!
