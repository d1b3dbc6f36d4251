//! Messages between a spawner and the workers it starts.
use vstd::prelude::*;

use crate::error::Error;

verus! {

pub enum WorkerMessage {
    /// Start the work registered under `task`.
    Init { task: usize },
    /// Stop the worker.
    Close,
    /// A URL a worker hands back to its spawner.
    Url { url: String },
}

/// The type tag a message travels under.
pub open spec fn spec_kind(m: WorkerMessage) -> Seq<char> {
    match m {
        WorkerMessage::Init { .. } => "init"@,
        WorkerMessage::Close => "close"@,
        WorkerMessage::Url { .. } => "url"@,
    }
}

impl WorkerMessage {
    /// The type tag the message travels under.
    pub fn kind(&self) -> (r: &'static str)
        ensures
            r@ == spec_kind(*self),
    {
        match self {
            WorkerMessage::Init { .. } => "init",
            WorkerMessage::Close => "close",
            WorkerMessage::Url { .. } => "url",
        }
    }

    /// Rebuilds a message from its type tag and the fields that came with it.
    pub fn from_kind(kind: &str, task: Option<usize>, url: Option<String>) -> (r: Result<
        WorkerMessage,
        Error,
    >)
        ensures
            kind@ == "init"@ ==> match task {
                Some(t) => (r matches Ok(WorkerMessage::Init { task: t2 }) && t2 == t),
                None => (r matches Err(Error::MissingField(f)) && f@ == "task"@),
            },
            kind@ == "close"@ ==> (r matches Ok(WorkerMessage::Close)),
            kind@ == "url"@ ==> match url {
                Some(u) => (r matches Ok(WorkerMessage::Url { url: u2 }) && u2 == u),
                None => (r matches Err(Error::MissingField(f)) && f@ == "url"@),
            },
            kind@ != "init"@ && kind@ != "close"@ && kind@ != "url"@ ==> (r matches Err(
                Error::UnknownMessage(k),
            ) && k@ == kind@),
    {
        proof {
            reveal_strlit("init");
            reveal_strlit("close");
            reveal_strlit("url");
            assert("init"@.len() == 4 && "close"@.len() == 5 && "url"@.len() == 3);
        }
        let k = String::from_str(kind);
        if k == String::from_str("init") {
            match task {
                Some(t) => Ok(WorkerMessage::Init { task: t }),
                None => Err(Error::MissingField(String::from_str("task"))),
            }
        } else if k == String::from_str("close") {
            Ok(WorkerMessage::Close)
        } else if k == String::from_str("url") {
            match url {
                Some(u) => Ok(WorkerMessage::Url { url: u }),
                None => Err(Error::MissingField(String::from_str("url"))),
            }
        } else {
            Err(Error::UnknownMessage(k))
        }
    }
}

} // verus!
