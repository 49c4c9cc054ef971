//! Web path enumeration: expanding a wordlist into candidate paths, pacing the
//! requests made for them, and reporting the responses.
use vstd::prelude::*;

pub mod text;
pub mod wordlist;
pub mod dispatch;
pub mod report;
pub mod lemmas;

verus! {

/// The enumeration mode chosen on the command line, with the arguments left
/// for it.
#[derive(Clone, Debug)]
pub enum Mode {
    Dir(Vec<String>),
}

/// The options shared by every mode.
#[derive(Clone, Debug)]
pub struct GlobalArgs {
    /// How many requests may be in flight at once.
    pub threads: usize,
    pub mode: Mode,
}

} // verus!
