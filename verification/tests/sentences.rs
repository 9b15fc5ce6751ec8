//! The sentences responder outcomes and dispatch refusals render.

use tinyhivemind::dispatch::{NoDispatchReason, NO_AVAILABLE_TARGET};
use tinyhivemind::responder::{ResponderRung, SelectionDisposition};

#[derive(Clone, Copy, Debug, Eq, PartialEq)]
enum Rendering {
    Shared,
    Own,
}

const EVERY_RUNG: [ResponderRung; 5] = [
    ResponderRung::ExplicitMention,
    ResponderRung::AutoSelection,
    ResponderRung::DeskDefault,
    ResponderRung::DirectAgent,
    ResponderRung::Orchestrator,
];

const EVERY_DISPOSITION: [SelectionDisposition; 5] = [
    SelectionDisposition::NotApplicable,
    SelectionDisposition::Selected,
    SelectionDisposition::Disabled,
    SelectionDisposition::Unavailable,
    SelectionDisposition::InvalidOutput,
];

fn required_of_rung(rung: ResponderRung) -> Rendering {
    match rung {
        ResponderRung::ExplicitMention
        | ResponderRung::AutoSelection
        | ResponderRung::DeskDefault
        | ResponderRung::DirectAgent
        | ResponderRung::Orchestrator => Rendering::Own,
    }
}

fn required_of_disposition(disposition: SelectionDisposition) -> Rendering {
    match disposition {
        SelectionDisposition::NotApplicable
        | SelectionDisposition::Selected
        | SelectionDisposition::Disabled
        | SelectionDisposition::Unavailable
        | SelectionDisposition::InvalidOutput => Rendering::Own,
    }
}

fn check_every_rung_renders_its_own_sentence() {
    let mut seen: Vec<String> = Vec::new();
    for rung in EVERY_RUNG {
        let sentence = rung.to_string();
        match required_of_rung(rung) {
            Rendering::Own => assert!(!seen.contains(&sentence), "{rung:?} repeats a sentence"),
            Rendering::Shared => (),
        }
        seen.push(sentence);
    }
}

fn check_every_disposition_renders_its_own_sentence() {
    let mut seen: Vec<String> = Vec::new();
    for disposition in EVERY_DISPOSITION {
        let sentence = disposition.to_string();
        if required_of_disposition(disposition) == Rendering::Own {
            assert!(!seen.contains(&sentence), "{disposition:?} repeats a sentence");
        }
        seen.push(sentence);
    }
}

fn check_every_withheld_outcome_shares_one_sentence() {
    let withheld: Vec<String> = EVERY_RUNG
        .into_iter()
        .filter(|rung| required_of_rung(*rung) == Rendering::Shared)
        .map(|rung| rung.to_string())
        .chain(
            EVERY_DISPOSITION
                .into_iter()
                .filter(|disposition| required_of_disposition(*disposition) == Rendering::Shared)
                .map(|disposition| disposition.to_string()),
        )
        .collect();
    for sentence in &withheld {
        assert_eq!(sentence, &withheld[0]);
    }
}

fn check_every_outcome_is_a_lowercase_sentence_without_trailing_punctuation() {
    let sentences = EVERY_RUNG
        .into_iter()
        .map(|rung| (format!("{rung:?}"), rung.to_string()))
        .chain(
            EVERY_DISPOSITION
                .into_iter()
                .map(|disposition| (format!("{disposition:?}"), disposition.to_string())),
        );
    for (name, sentence) in sentences {
        assert!(!sentence.is_empty(), "{name}");
        assert_eq!(sentence, sentence.to_lowercase(), "{name}");
        assert!(!sentence.ends_with(['.', '!', '?']), "{name}");
    }
}

fn check_renders_the_settled_sentences() {
    assert_eq!(
        ResponderRung::ExplicitMention.to_string(),
        "the agent this message named answered it"
    );
    assert_eq!(
        ResponderRung::AutoSelection.to_string(),
        "this desk picked whoever suited the message best"
    );
    assert_eq!(
        ResponderRung::DeskDefault.to_string(),
        "nobody in particular was named, so this desk's first agent answered"
    );
    assert_eq!(
        ResponderRung::DirectAgent.to_string(),
        "this conversation has one agent, and it answered"
    );
    assert_eq!(
        ResponderRung::Orchestrator.to_string(),
        "no desk agent applied here, so the coordinator answered"
    );
    assert_eq!(
        SelectionDisposition::NotApplicable.to_string(),
        "no model was asked to choose who answers"
    );
    assert_eq!(SelectionDisposition::Selected.to_string(), "a model chose who answers");
    assert_eq!(
        SelectionDisposition::Disabled.to_string(),
        "choosing who answers by model is turned off here"
    );
    assert_eq!(
        SelectionDisposition::Unavailable.to_string(),
        "no model was available to choose, so this desk's first agent answered"
    );
    assert_eq!(
        SelectionDisposition::InvalidOutput.to_string(),
        "the model did not name one agent, so this desk's first agent answered"
    );
}

#[test]
fn test_every_rung_renders_its_own_sentence() {
    check_every_rung_renders_its_own_sentence();
}

#[test]
fn test_every_disposition_renders_its_own_sentence() {
    check_every_disposition_renders_its_own_sentence();
}

#[test]
fn test_every_withheld_outcome_shares_one_sentence() {
    check_every_withheld_outcome_shares_one_sentence();
}

#[test]
fn test_every_outcome_is_a_lowercase_sentence_without_trailing_punctuation() {
    check_every_outcome_is_a_lowercase_sentence_without_trailing_punctuation();
}

#[test]
fn test_renders_the_settled_sentences() {
    check_renders_the_settled_sentences();
}

#[test]
fn disclosure_every_rung_renders_its_own_sentence() {
    check_every_rung_renders_its_own_sentence();
}

#[test]
fn disclosure_every_disposition_renders_its_own_sentence() {
    check_every_disposition_renders_its_own_sentence();
}

#[test]
fn disclosure_every_withheld_outcome_shares_one_sentence() {
    check_every_withheld_outcome_shares_one_sentence();
}

#[test]
fn disclosure_every_outcome_is_a_lowercase_sentence_without_trailing_punctuation() {
    check_every_outcome_is_a_lowercase_sentence_without_trailing_punctuation();
}

#[test]
fn disclosure_renders_the_settled_sentences() {
    check_renders_the_settled_sentences();
}

#[test]
fn dispatch_refusals_about_others_share_one_sentence() {
    assert_eq!(NoDispatchReason::NoDirectAgentMention.to_string(), NO_AVAILABLE_TARGET);
    assert_eq!(NoDispatchReason::TargetInactive.to_string(), NO_AVAILABLE_TARGET);
    assert_eq!(
        NoDispatchReason::HopOverflow.to_string(),
        NoDispatchReason::HopLimitReached.to_string()
    );
    assert_eq!(
        NoDispatchReason::Disabled.to_string(),
        "passing this on to another agent is turned off here"
    );
    assert_eq!(
        NoDispatchReason::SelfMention.to_string(),
        "an agent cannot pass a message on to itself"
    );
    assert_eq!(
        NoDispatchReason::SourceInactive.to_string(),
        "the agent that wrote this is no longer active, so nothing was passed on"
    );
}
