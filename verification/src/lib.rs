//! A typing-practice text generator: a frequency-weighted prefix tree over a
//! corpus of words, and a pipeline of word selectors that draws practice text
//! from it.

use vstd::prelude::*;
use vstd::string::StringExecFns;

pub mod arena;
mod compaction;
pub mod config;
pub mod corpus;
mod random;
pub mod sampling;
pub mod text;
pub mod textgen;
pub mod tree;
pub mod trie;
pub mod typing;
pub mod wordstream;

verus! {

/// Any failure that reaches the top of the program.
#[derive(Debug)]
pub struct ToipeError {
    /// What went wrong, not starting with "error" or the like.
    pub msg: String,
}

impl From<String> for ToipeError {
    fn from(error: String) -> (r: Self) {
        ToipeError { msg: error }
    }
}

impl vstd::std_specs::convert::FromSpecImpl<String> for ToipeError {
    open spec fn obeys_from_spec() -> bool {
        true
    }

    open spec fn from_spec(error: String) -> Self {
        ToipeError { msg: error }
    }
}

impl ToipeError {
    /// The error as a line of text: its message behind the name of the type.
    pub fn to_text(&self) -> (s: String)
        ensures
            s@ == "ToipeError: "@ + self.msg@,
    {
        let mut s = String::from_str("ToipeError: ");
        s.append(self.msg.as_str());
        s
    }

    /// Puts `context` in front of the message.
    pub fn with_context(self, context: &str) -> (r: Self)
        ensures
            r.msg@ == context@ + self.msg@,
    {
        let mut msg = String::from_str(context);
        msg.append(self.msg.as_str());
        ToipeError { msg }
    }
}

} // verus!
