//! The error type shared by the codec and the dictionary store.

use vstd::prelude::*;
use vstd::string::StringExecFns;

verus! {

/// The kind of a failure: malformed entry text, a bad caller parameter, a
/// database problem, or a missing or unreadable dictionary file.
#[derive(Clone, Copy, Debug, PartialEq, Eq, Structural)]
pub enum VctErrorKind {
    ParsingError,
    ParamError,
    DatabaseError,
    FileError,
}

/// The message prefix that each error kind carries.
pub open spec fn kind_prefix(kind: VctErrorKind) -> Seq<char> {
    match kind {
        VctErrorKind::ParsingError => "parsing error: "@,
        VctErrorKind::ParamError => "parameter error: "@,
        VctErrorKind::DatabaseError => "database error: "@,
        VctErrorKind::FileError => "file error: "@,
    }
}

/// An error raised by the library, keeping its kind and a formatted message.
#[derive(Debug)]
pub struct VctError {
    pub kind: VctErrorKind,
    pub msg: String,
}

impl VctError {
    /// A new error of the given kind; the message is the kind's prefix
    /// followed by the detail text.
    pub fn new(kind: VctErrorKind, msg: &str) -> (e: VctError)
        ensures
            e.kind == kind,
            e.msg@ == kind_prefix(kind) + msg@,
    {
        let message: String = match kind {
            VctErrorKind::ParsingError => String::from_str("parsing error: ").concat(msg),
            VctErrorKind::ParamError => String::from_str("parameter error: ").concat(msg),
            VctErrorKind::DatabaseError => String::from_str("database error: ").concat(msg),
            VctErrorKind::FileError => String::from_str("file error: ").concat(msg),
        };
        VctError { kind, msg: message }
    }

    /// The formatted message, for display by the caller.
    pub fn message(&self) -> (r: &String)
        ensures
            r@ == self.msg@,
    {
        &self.msg
    }
}

} // verus!
