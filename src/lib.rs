//! Capture, encoding and decoding of synchronization traces, with the
//! thread harness and lock hooks that produce them.
pub mod bytes;
pub mod error;
pub mod layout;
pub mod message;
pub mod mutex;
pub mod parser;
pub mod rapidbin;
pub mod roundtrip;
pub mod thread;
pub mod tracing;
pub mod url;
