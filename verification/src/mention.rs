//! Resolved mentions, as the mention grammar hands them to every decision.

use vstd::prelude::*;

verus! {

/// What one resolved mention addresses.
#[derive(Clone, Debug, Eq, PartialEq)]
pub enum MentionTarget {
    /// One agent, by exact id.
    Agent {
        /// The agent id.
        id: String,
    },
    /// One person, by exact id.
    Person {
        /// The person id.
        id: String,
    },
    /// One desk, by exact id.
    Desk {
        /// The desk id.
        id: String,
    },
    /// Every active agent.
    Everyone,
}

/// One resolved mention in an authored body.
#[derive(Clone, Debug, Eq, PartialEq)]
pub struct Mention {
    /// What it addresses.
    pub target: MentionTarget,
    /// The text as written, marker included.
    pub text: String,
    /// Byte offset of the mention in the body.
    pub offset: usize,
    /// Whether it names without addressing.
    pub quiet: bool,
}

} // verus!
