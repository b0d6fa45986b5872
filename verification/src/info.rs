//! The kinds of diagnostic messages the program prints, and the prefix
//! each kind carries.

use vstd::prelude::*;

verus! {

/// A diagnostic message's type: a warning, or an error.
#[derive(Clone, Copy, Debug, PartialEq, Eq, Structural)]
pub enum MessageType {
    Warning,
    Error,
}

/// The prefix a message of this type is printed with.
pub open spec fn spec_prefix(m: MessageType) -> Seq<char> {
    match m {
        MessageType::Warning => "vct: warning: "@,
        MessageType::Error => "vct: error: "@,
    }
}

impl MessageType {
    /// The prefix a message of this type is printed with.
    pub fn prefix(&self) -> (r: &'static str)
        ensures
            r@ == spec_prefix(*self),
    {
        match self {
            MessageType::Warning => "vct: warning: ",
            MessageType::Error => "vct: error: ",
        }
    }
}

} // verus!
