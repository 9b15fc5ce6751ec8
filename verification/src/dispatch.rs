//! Stable payloads for one bounded mention-dispatch decision.

use vstd::prelude::*;

use crate::mention::Mention;

verus! {

broadcast use vstd::string::group_string_axioms;

/// The one sentence every refusal that turns on a named other renders as.
///
/// A refusal an agent can tell apart is a refusal an agent can probe: if
/// "nobody was addressed" and "the agent you addressed is not available" came
/// back in different words, an agent could learn which ids a roster holds one
/// name at a time. The structured reason still tells them apart.
pub const NO_AVAILABLE_TARGET: &'static str = "there is no available agent to pass this to";

/// Explicit host policy for agent-to-agent mention dispatch.
#[derive(Clone, Copy, Debug, Eq, PartialEq)]
pub struct MentionDispatchPolicy {
    /// Whether mention dispatch is enabled for this committed reply.
    pub enabled: bool,
    /// Maximum permitted chain depth, supplied by the host without a library cap.
    pub max_hops: u32,
}

/// The committed trigger that makes an enqueue idempotent within its scope.
#[derive(Clone, Copy, Debug, Eq, PartialEq, Hash)]
pub struct DispatchKey {
    /// Host-owned sequence of the committed agent reply.
    pub trigger_sequence: u64,
}

/// Pure conversation identity bound into a mention turn request.
#[derive(Clone, Debug, Eq, PartialEq, Hash)]
pub struct DispatchConversation {
    /// Canonical case-sensitive desk id.
    pub desk_id: String,
    /// Root sequence for a thread, or `None` for the desk channel.
    pub thread_root: Option<u64>,
}

/// Inputs captured from one committed agent reply.
#[derive(Clone, Debug, Eq, PartialEq)]
pub struct MentionDispatchInput {
    /// Idempotency key for the committed reply.
    pub key: DispatchKey,
    /// Conversation to which any child turn remains bound.
    pub conversation: DispatchConversation,
    /// Exact active agent id that authored the reply.
    pub author_id: String,
    /// Exact committed reply content passed to the child turn.
    pub content: String,
    /// Revalidated resolved mentions from the committed content.
    pub mentions: Vec<Mention>,
    /// Current chain depth of the committed reply.
    pub hop: u32,
}

/// Why no child turn was selected.
///
/// The variant is the operator's record. The sentence
/// [`NoDispatchReason::to_string`] renders is the acting agent's, and is
/// deliberately coarser: every reason that turns on a named other renders as
/// [`NO_AVAILABLE_TARGET`].
#[derive(Clone, Copy, Debug, Eq, PartialEq)]
pub enum NoDispatchReason {
    /// Host policy explicitly disabled dispatch.
    Disabled,
    /// The current reply has exhausted the host's hop budget.
    HopLimitReached,
    /// The committed author is not an active agent.
    SourceInactive,
    /// No nonquiet direct agent mention was present.
    NoDirectAgentMention,
    /// The first direct mention addresses the author.
    SelfMention,
    /// The first direct mention addresses an inactive agent.
    TargetInactive,
    /// The child hop could not be represented.
    HopOverflow,
}

/// The sentence a reason renders.
///
/// A reason renders wording of its own only when what it reveals is something
/// the caller already holds; anything that turns on whether a named other
/// exists renders as [`NO_AVAILABLE_TARGET`]. The hop overflow shares the hop
/// budget's sentence, because it is only reachable once the target resolved.
pub open spec fn dispatch_sentence(reason: NoDispatchReason) -> Seq<char> {
    match reason {
        NoDispatchReason::Disabled => "passing this on to another agent is turned off here"@,
        NoDispatchReason::HopLimitReached | NoDispatchReason::HopOverflow =>
            "this has already been passed along as far as it may go"@,
        NoDispatchReason::SourceInactive =>
            "the agent that wrote this is no longer active, so nothing was passed on"@,
        NoDispatchReason::SelfMention => "an agent cannot pass a message on to itself"@,
        NoDispatchReason::NoDirectAgentMention | NoDispatchReason::TargetInactive =>
            NO_AVAILABLE_TARGET@,
    }
}

impl NoDispatchReason {
    /// Render the sentence an acting agent may repeat to a person.
    pub fn to_string(&self) -> (s: String)
        ensures
            s@ == dispatch_sentence(*self),
    {
        let text = match self {
            NoDispatchReason::Disabled => "passing this on to another agent is turned off here",
            NoDispatchReason::HopLimitReached | NoDispatchReason::HopOverflow =>
                "this has already been passed along as far as it may go",
            NoDispatchReason::SourceInactive =>
                "the agent that wrote this is no longer active, so nothing was passed on",
            NoDispatchReason::SelfMention => "an agent cannot pass a message on to itself",
            NoDispatchReason::NoDirectAgentMention | NoDispatchReason::TargetInactive =>
                NO_AVAILABLE_TARGET,
        };
        text.to_string()
    }
}

/// Every refusal that turns on whether a named other exists renders one and
/// the same sentence, so no refusal can be probed for a roster fact.
pub proof fn law_refusals_about_others_are_indistinguishable()
    ensures
        dispatch_sentence(NoDispatchReason::NoDirectAgentMention) == dispatch_sentence(
            NoDispatchReason::TargetInactive,
        ),
        dispatch_sentence(NoDispatchReason::TargetInactive) == NO_AVAILABLE_TARGET@,
        dispatch_sentence(NoDispatchReason::HopOverflow) == dispatch_sentence(
            NoDispatchReason::HopLimitReached,
        ),
{
}

/// One canonical child-turn enqueue request.
#[derive(Clone, Debug, Eq, PartialEq)]
pub struct MentionTurnRequest {
    /// Idempotency key derived from the committed reply.
    pub key: DispatchKey,
    /// Exact active author id.
    pub source_id: String,
    /// Exact active target id.
    pub target_id: String,
    /// Exact committed reply content.
    pub content: String,
    /// Bound conversation scope.
    pub conversation: DispatchConversation,
    /// Checked child depth.
    pub child_hop: u32,
}

/// Pure result of considering one committed reply.
#[derive(Clone, Debug, Eq, PartialEq)]
pub enum MentionDispatchDecision {
    /// No enqueue may be attempted.
    Refused {
        /// Deterministic reason for stopping.
        reason: NoDispatchReason,
    },
    /// Exactly one canonical enqueue may be attempted.
    One {
        /// Request to pass unchanged to the host queue.
        request: MentionTurnRequest,
    },
}

} // verus!
