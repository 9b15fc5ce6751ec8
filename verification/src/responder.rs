//! Stable responder selection inputs and decisions.

use vstd::prelude::*;

use crate::mention::Mention;

verus! {

broadcast use vstd::string::group_string_axioms;

/// Descriptive selector input for one active desk member.
#[derive(Clone, Debug, Eq, PartialEq)]
pub struct SelectorCandidate {
    /// Canonical agent id.
    pub id: String,
    /// Human-readable agent label.
    pub label: String,
    /// Team role supplied to the selector.
    pub role: String,
    /// Optional short capability description.
    pub description: Option<String>,
}

/// Whether a model-assisted selection rung may run.
#[derive(Clone, Copy, Debug, Eq, PartialEq)]
pub enum SelectionPolicy {
    /// The runtime may invoke its selector.
    Allowed,
    /// Selection is disabled and the deterministic fallback wins.
    Disabled,
}

/// Caller-owned inputs to the pure responder ladder.
#[derive(Clone, Debug, Eq, PartialEq)]
pub struct ResponderRequest {
    /// The raw authored message.
    pub message: String,
    /// Stored chat identity, or no identity for General.
    pub chat: Option<String>,
    /// Already-resolved mentions for the message.
    pub mentions: Vec<Mention>,
    /// Canonical id of the host's orchestrator agent.
    pub orchestrator_id: String,
    /// Whether model-assisted selection is enabled for this request.
    pub selection_policy: SelectionPolicy,
}

/// The complete, bounded input visible to a model selector.
#[derive(Clone, Debug, Eq, PartialEq)]
pub struct SelectionRequest {
    /// The raw authored message.
    pub message: String,
    /// Canonical desk id.
    pub desk_id: String,
    /// Effective active candidates in desk order.
    pub candidates: Vec<SelectorCandidate>,
}

/// The ladder rung that produced a responder.
///
/// Its sentence discloses nothing a refusal would have to withhold: the
/// ladder never declines, so a rung always arrives beside the responder id it
/// explains.
#[derive(Clone, Copy, Debug, Eq, PartialEq)]
pub enum ResponderRung {
    /// A direct, active agent mention.
    ExplicitMention,
    /// Model-assisted selection or its deterministic fallback.
    AutoSelection,
    /// The first effective active member of a desk.
    DeskDefault,
    /// A direct-message or bare agent chat identity.
    DirectAgent,
    /// The host's orchestrator fallback.
    Orchestrator,
}

/// What happened at the optional selector boundary.
///
/// [`Self::Unavailable`] and [`Self::InvalidOutput`] are worded apart on
/// purpose: both describe the host's own selector and a fallback that has
/// already produced an id, so neither reports whether some named agent exists.
#[derive(Clone, Copy, Debug, Eq, PartialEq)]
pub enum SelectionDisposition {
    /// No model selection applied to this rung.
    NotApplicable,
    /// A selector returned a valid candidate.
    Selected,
    /// Selection policy disabled the model rung.
    Disabled,
    /// No selector was available or it failed.
    Unavailable,
    /// Selector output did not name exactly one candidate.
    InvalidOutput,
}

/// Why this agent is the one answering, as a sentence.
pub open spec fn rung_sentence(rung: ResponderRung) -> Seq<char> {
    match rung {
        ResponderRung::ExplicitMention => "the agent this message named answered it"@,
        ResponderRung::AutoSelection => "this desk picked whoever suited the message best"@,
        ResponderRung::DeskDefault =>
            "nobody in particular was named, so this desk's first agent answered"@,
        ResponderRung::DirectAgent => "this conversation has one agent, and it answered"@,
        ResponderRung::Orchestrator => "no desk agent applied here, so the coordinator answered"@,
    }
}

/// What the optional model rung did, or did not do, as a sentence.
pub open spec fn disposition_sentence(disposition: SelectionDisposition) -> Seq<char> {
    match disposition {
        SelectionDisposition::NotApplicable => "no model was asked to choose who answers"@,
        SelectionDisposition::Selected => "a model chose who answers"@,
        SelectionDisposition::Disabled => "choosing who answers by model is turned off here"@,
        SelectionDisposition::Unavailable =>
            "no model was available to choose, so this desk's first agent answered"@,
        SelectionDisposition::InvalidOutput =>
            "the model did not name one agent, so this desk's first agent answered"@,
    }
}

impl ResponderRung {
    /// Render why this agent is the one answering.
    pub fn to_string(&self) -> (s: String)
        ensures
            s@ == rung_sentence(*self),
    {
        let text = match self {
            ResponderRung::ExplicitMention => "the agent this message named answered it",
            ResponderRung::AutoSelection => "this desk picked whoever suited the message best",
            ResponderRung::DeskDefault =>
                "nobody in particular was named, so this desk's first agent answered",
            ResponderRung::DirectAgent => "this conversation has one agent, and it answered",
            ResponderRung::Orchestrator =>
                "no desk agent applied here, so the coordinator answered",
        };
        text.to_string()
    }
}

impl SelectionDisposition {
    /// Render what the optional model rung did, or did not do.
    pub fn to_string(&self) -> (s: String)
        ensures
            s@ == disposition_sentence(*self),
    {
        let text = match self {
            SelectionDisposition::NotApplicable => "no model was asked to choose who answers",
            SelectionDisposition::Selected => "a model chose who answers",
            SelectionDisposition::Disabled => "choosing who answers by model is turned off here",
            SelectionDisposition::Unavailable =>
                "no model was available to choose, so this desk's first agent answered",
            SelectionDisposition::InvalidOutput =>
                "the model did not name one agent, so this desk's first agent answered",
        };
        text.to_string()
    }
}

/// No two rungs, and no two dispositions, render the same sentence: each
/// outcome is about the caller's own request, so none has to be withheld
/// behind a shared one.
pub proof fn law_every_outcome_renders_its_own_sentence()
    ensures
        forall|a: ResponderRung, b: ResponderRung| a != b ==> rung_sentence(a) != rung_sentence(b),
        forall|a: SelectionDisposition, b: SelectionDisposition|
            a != b ==> disposition_sentence(a) != disposition_sentence(b),
{
    reveal_strlit("the agent this message named answered it");
    reveal_strlit("this desk picked whoever suited the message best");
    reveal_strlit("nobody in particular was named, so this desk's first agent answered");
    reveal_strlit("this conversation has one agent, and it answered");
    reveal_strlit("no desk agent applied here, so the coordinator answered");
    reveal_strlit("no model was asked to choose who answers");
    reveal_strlit("a model chose who answers");
    reveal_strlit("choosing who answers by model is turned off here");
    reveal_strlit("no model was available to choose, so this desk's first agent answered");
    reveal_strlit("the model did not name one agent, so this desk's first agent answered");
    assert(rung_sentence(ResponderRung::ExplicitMention).len() == 40);
    assert(rung_sentence(ResponderRung::AutoSelection).len() == 48);
    assert(rung_sentence(ResponderRung::DeskDefault).len() == 67);
    assert(rung_sentence(ResponderRung::DirectAgent).len() == 48);
    assert(rung_sentence(ResponderRung::Orchestrator).len() == 55);
    assert(rung_sentence(ResponderRung::AutoSelection)[5] != rung_sentence(
        ResponderRung::DirectAgent,
    )[5]);
    assert(disposition_sentence(SelectionDisposition::NotApplicable).len() == 40);
    assert(disposition_sentence(SelectionDisposition::Selected).len() == 25);
    assert(disposition_sentence(SelectionDisposition::Disabled).len() == 48);
    assert(disposition_sentence(SelectionDisposition::Unavailable).len() == 69);
    assert(disposition_sentence(SelectionDisposition::InvalidOutput).len() == 69);
    assert(disposition_sentence(SelectionDisposition::Unavailable)[0] != disposition_sentence(
        SelectionDisposition::InvalidOutput,
    )[0]);
    assert forall|a: ResponderRung, b: ResponderRung| a != b implies rung_sentence(a)
        != rung_sentence(b) by {
        if rung_sentence(a) == rung_sentence(b) {
            assert(rung_sentence(a).len() == rung_sentence(b).len());
        }
    }
    assert forall|a: SelectionDisposition, b: SelectionDisposition| a != b implies disposition_sentence(
        a,
    ) != disposition_sentence(b) by {
        if disposition_sentence(a) == disposition_sentence(b) {
            assert(disposition_sentence(a).len() == disposition_sentence(b).len());
        }
    }
}

/// The single responder selected for one input message.
#[derive(Clone, Debug, Eq, PartialEq)]
pub struct ResponderDecision {
    /// Canonical active agent id.
    pub responder_id: String,
    /// Ladder rung that selected the id.
    pub rung: ResponderRung,
    /// Selector outcome, when the auto rung applied.
    pub disposition: SelectionDisposition,
}

/// A pure plan that either decides immediately or requests one selector call.
#[derive(Clone, Debug, Eq, PartialEq)]
pub enum ResponderPlan {
    /// No runtime selection is needed.
    Decided {
        /// The sole responder decision.
        decision: ResponderDecision,
    },
    /// Invoke a selector once, falling back deterministically.
    Select {
        /// The bounded request visible to the selector.
        request: SelectionRequest,
        /// First-candidate fallback for unavailable or invalid selection.
        fallback: ResponderDecision,
    },
}

} // verus!
