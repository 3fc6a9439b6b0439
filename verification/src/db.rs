//! The history of randomizations.

use vstd::prelude::*;

verus! {

/// A randomization that was made: when, and with which preset and
/// arguments, both as JSON.
#[derive(Debug, Clone)]
pub struct History {
    pub _id: i32,
    pub created_at: i64,
    pub preset: String,
    pub arguments: String,
}

} // verus!
