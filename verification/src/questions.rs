//! Frontend-facing question shapes.

use vstd::prelude::*;

verus! {

/// Question from frontend.
#[allow(dead_code)]
#[derive(Debug)]
pub struct Simple {
    /// Name of question's author.
    name: String,
    /// Question content.
    info: String,
    /// Email of question's author.
    email: Option<String>,
}

/// Question to frontend.
#[allow(dead_code)]
pub struct Full {
    pid: u64,
    info: String,
    time: i64,
    name: String,
    email: Option<String>,
}

} // verus!
