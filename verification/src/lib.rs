//! A small vocabulary trainer library: vocabulary records with a textual
//! line grammar, loading and querying of dictionary stores, and a quiz
//! session state machine that scores recall.

pub mod args;
pub mod cfg;
pub mod dict;
pub mod error;
pub mod info;
pub mod query;
pub mod question;
pub mod text;

use vstd::prelude::*;

verus! {

} // verus!
