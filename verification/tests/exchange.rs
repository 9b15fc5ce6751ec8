//! Behaviour of the off-floor exchange fold.

use tinyhivemind::aside::Audience;
use tinyhivemind::desk::{Desk, DeskSet, ResponderMode};
use tinyhivemind::error::Error;
use tinyhivemind::exchange::{
    exchange, Conversation, EpisodeState, ExchangePolicy, ExchangeRound, ExchangeState,
    NoExchangeReason, Sequence, SessionAuthor, SessionMessage,
};
use tinyhivemind::roster::{Roster, RosterMember};

const MEMBERS: [&str; 3] = ["planner", "critic", "scout"];

fn roster_members() -> Vec<RosterMember> {
    MEMBERS
        .iter()
        .map(|id| RosterMember {
            id: (*id).into(),
            name: Some((*id).into()),
        })
        .collect()
}

fn desks() -> Vec<Desk> {
    vec![Desk {
        id: "engineering".into(),
        name: "Engineering".into(),
        description: None,
        members: MEMBERS.iter().map(|id| (*id).to_owned()).collect(),
        responder_mode: ResponderMode::Auto,
    }]
}

fn state() -> EpisodeState {
    EpisodeState::opened(
        Conversation {
            desk_id: "engineering".into(),
            desk_name: "Engineering".into(),
            thread_root: None,
        },
        Sequence(0),
    )
}

fn private(sequence: u64, author: &str, to: &str) -> SessionMessage {
    SessionMessage {
        sequence: Sequence(sequence),
        author: SessionAuthor::Agent {
            id: author.into(),
            label: author.into(),
        },
        content: format!("!aside @{to} Between us."),
        audience: Audience::Aside {
            members: vec![to.to_owned()],
        },
    }
}

fn said(sequence: u64, author: &str) -> SessionMessage {
    SessionMessage {
        audience: Audience::Desk,
        content: "!propose #stage".into(),
        ..private(sequence, author, "nobody")
    }
}

fn open(policy: &ExchangePolicy, transcript: &[SessionMessage]) -> ExchangeRound {
    open_after(policy, transcript, ExchangeState::opened())
}

fn open_after(
    policy: &ExchangePolicy,
    transcript: &[SessionMessage],
    opened: ExchangeState,
) -> ExchangeRound {
    let people = roster_members();
    let rooms = desks();
    let retired: Vec<String> = Vec::new();
    exchange(
        policy,
        &state(),
        opened,
        transcript,
        &Roster::new(&people, &[], &retired),
        &DeskSet::new(&rooms),
    )
    .expect("valid snapshots")
}

fn generous() -> ExchangePolicy {
    ExchangePolicy {
        enabled: true,
        contact_cap: 2,
        round_cap: 4,
    }
}

#[test]
fn the_derived_default_is_the_named_one() {
    assert_eq!(
        ExchangePolicy::default(),
        ExchangePolicy {
            enabled: false,
            contact_cap: 0,
            round_cap: 0,
        }
    );
}

#[test]
fn the_default_policy_opens_no_round() {
    assert_eq!(
        open(&ExchangePolicy::default(), &[]),
        ExchangeRound::Closed {
            reason: NoExchangeReason::Disabled,
        }
    );
}

#[test]
fn a_zero_cap_closes_the_round_rather_than_erroring() {
    for policy in [
        ExchangePolicy {
            contact_cap: 0,
            ..generous()
        },
        ExchangePolicy {
            round_cap: 0,
            ..generous()
        },
        ExchangePolicy {
            enabled: false,
            ..generous()
        },
    ] {
        assert_eq!(
            open(&policy, &[]),
            ExchangeRound::Closed {
                reason: NoExchangeReason::Disabled,
            }
        );
    }
}

#[test]
fn an_open_round_names_every_active_member_in_desk_order() {
    let ExchangeRound::Open {
        members, remaining, ..
    } = open(&generous(), &[])
    else {
        panic!("expected an open round");
    };
    assert_eq!(members, MEMBERS.map(str::to_owned).to_vec());
    assert_eq!(remaining, 6);
}

#[test]
fn spend_is_read_back_out_of_the_transcript() {
    let transcript = vec![
        said(1, "planner"),
        private(2, "planner", "critic"),
        private(3, "planner", "scout"),
        private(4, "critic", "planner"),
    ];
    let ExchangeRound::Open {
        members, remaining, ..
    } = open(&generous(), &transcript)
    else {
        panic!("expected an open round");
    };
    assert_eq!(members, vec!["critic".to_owned(), "scout".to_owned()]);
    assert_eq!(remaining, 3);
}

#[test]
fn remaining_is_clamped_per_member_rather_than_in_aggregate() {
    let policy = ExchangePolicy {
        enabled: true,
        contact_cap: 10,
        round_cap: 15,
    };
    let transcript: Vec<SessionMessage> = (0..10_u64)
        .map(|index| private(index + 1, "planner", "critic"))
        .collect();
    let ExchangeRound::Open {
        members, remaining, ..
    } = open_after(&policy, &transcript, ExchangeState { rounds: 10 })
    else {
        panic!("expected an open round");
    };
    assert_eq!(members, vec!["critic".to_owned(), "scout".to_owned()]);
    assert_eq!(remaining, 10, "five remaining rounds for each of two members");
}

#[test]
fn a_member_that_has_spent_its_cap_is_not_named_again() {
    let policy = ExchangePolicy {
        contact_cap: 1,
        ..generous()
    };
    let transcript = vec![private(1, "planner", "critic")];
    let ExchangeRound::Open { members, .. } = open(&policy, &transcript) else {
        panic!("expected an open round");
    };
    assert!(!members.contains(&"planner".to_owned()));
}

#[test]
fn a_round_closes_once_every_member_has_spent_its_cap() {
    let policy = ExchangePolicy {
        contact_cap: 1,
        ..generous()
    };
    let transcript: Vec<SessionMessage> = MEMBERS
        .iter()
        .enumerate()
        .map(|(index, id)| private(index as u64 + 1, id, "critic"))
        .collect();
    assert_eq!(
        open(&policy, &transcript),
        ExchangeRound::Closed {
            reason: NoExchangeReason::ContactsSpent,
        }
    );
}

#[test]
fn the_round_cap_bounds_the_episode_independently_of_the_contact_cap() {
    let policy = ExchangePolicy {
        enabled: true,
        contact_cap: 10,
        round_cap: 2,
    };
    assert_eq!(
        open_after(&policy, &[], ExchangeState { rounds: 2 }),
        ExchangeRound::Closed {
            reason: NoExchangeReason::RoundsSpent,
        }
    );
}

#[test]
fn remaining_is_clamped_by_the_rounds_still_open() {
    let policy = ExchangePolicy {
        enabled: true,
        contact_cap: 10,
        round_cap: 2,
    };
    let ExchangeRound::Open { remaining, .. } = open(&policy, &[]) else {
        panic!("expected an open round");
    };
    assert_eq!(remaining, 6);

    let ExchangeRound::Open { remaining, .. } =
        open_after(&policy, &[], ExchangeState { rounds: 1 })
    else {
        panic!("expected an open round");
    };
    assert_eq!(remaining, 3);
}

#[test]
fn a_round_nobody_wrote_in_still_counts_against_the_round_cap() {
    let policy = ExchangePolicy {
        enabled: true,
        contact_cap: 10,
        round_cap: 2,
    };
    assert!(matches!(
        open_after(&policy, &[], ExchangeState { rounds: 1 }),
        ExchangeRound::Open { .. }
    ));
    assert_eq!(
        open_after(&policy, &[], ExchangeState { rounds: 2 }),
        ExchangeRound::Closed {
            reason: NoExchangeReason::RoundsSpent,
        },
        "two opened rounds exhaust a cap of two even with an empty log",
    );
}

#[test]
fn an_open_round_hands_back_the_state_to_carry() {
    let ExchangeRound::Open { next, .. } =
        open_after(&generous(), &[], ExchangeState { rounds: 1 })
    else {
        panic!("expected an open round");
    };
    assert_eq!(next, ExchangeState { rounds: 2 });
}

#[test]
fn rows_at_or_below_the_watermark_are_not_this_episodes_spend() {
    let mut opened = state();
    opened.watermark = Sequence(5);
    let transcript = vec![
        private(1, "planner", "critic"),
        private(2, "planner", "scout"),
    ];
    let people = roster_members();
    let rooms = desks();
    let retired: Vec<String> = Vec::new();
    let round = exchange(
        &ExchangePolicy {
            contact_cap: 1,
            ..generous()
        },
        &opened,
        ExchangeState::opened(),
        &transcript,
        &Roster::new(&people, &[], &retired),
        &DeskSet::new(&rooms),
    )
    .expect("valid snapshots");
    let ExchangeRound::Open { members, .. } = round else {
        panic!("expected an open round");
    };
    assert!(members.contains(&"planner".to_owned()));
}

#[test]
fn a_member_added_mid_episode_brings_its_own_contact_cap() {
    let policy = ExchangePolicy {
        enabled: true,
        contact_cap: 1,
        round_cap: 2,
    };
    let transcript = vec![
        private(1, "planner", "critic"),
        private(2, "critic", "planner"),
    ];
    let ExchangeRound::Open {
        members, remaining, ..
    } = open_after(&policy, &transcript, ExchangeState { rounds: 1 })
    else {
        panic!("expected an open round");
    };
    assert_eq!(members, vec!["scout".to_owned()]);
    assert_eq!(remaining, 1, "the newcomer's own cap, not a shared pool");
}

#[test]
fn a_private_row_from_a_non_member_is_not_charged_to_anybody() {
    let transcript = vec![private(1, "stranger", "critic")];
    let ExchangeRound::Open { remaining, .. } = open(&generous(), &transcript) else {
        panic!("expected an open round");
    };
    assert_eq!(remaining, 6);
}

#[test]
fn a_desk_of_one_has_nobody_to_exchange_with() {
    let people = vec![RosterMember {
        id: "planner".into(),
        name: Some("planner".into()),
    }];
    let rooms = vec![Desk {
        id: "engineering".into(),
        name: "Engineering".into(),
        description: None,
        members: vec!["planner".into()],
        responder_mode: ResponderMode::Auto,
    }];
    let retired: Vec<String> = Vec::new();
    assert_eq!(
        exchange(
            &generous(),
            &state(),
            ExchangeState::opened(),
            &[],
            &Roster::new(&people, &[], &retired),
            &DeskSet::new(&rooms),
        )
        .expect("valid snapshots"),
        ExchangeRound::Closed {
            reason: NoExchangeReason::TooFewMembers,
        }
    );
}

// ---------------------------------------------------------------------------
// Further cases.
// ---------------------------------------------------------------------------

#[test]
fn an_unknown_desk_is_an_error() {
    let people = roster_members();
    let rooms = desks();
    let mut lost = state();
    lost.conversation.desk_id = "nowhere".into();
    assert_eq!(
        exchange(
            &generous(),
            &lost,
            ExchangeState::opened(),
            &[],
            &Roster::new(&people, &[], &[]),
            &DeskSet::new(&rooms),
        ),
        Err(Error::UnknownDesk {
            desk: "nowhere".into()
        })
    );
}

#[test]
fn a_desk_name_resolves_to_its_desk() {
    let people = roster_members();
    let rooms = desks();
    let mut named = state();
    named.conversation.desk_id = "Engineering".into();
    let round = exchange(
        &generous(),
        &named,
        ExchangeState::opened(),
        &[],
        &Roster::new(&people, &[], &[]),
        &DeskSet::new(&rooms),
    )
    .unwrap();
    assert!(matches!(round, ExchangeRound::Open { remaining: 6, .. }));
}

#[test]
fn a_retired_member_is_not_named_and_adds_no_capacity() {
    let people = roster_members();
    let rooms = desks();
    let retired = vec!["scout".to_owned()];
    let round = exchange(
        &generous(),
        &state(),
        ExchangeState::opened(),
        &[],
        &Roster::new(&people, &[], &retired),
        &DeskSet::new(&rooms),
    )
    .unwrap();
    assert_eq!(
        round,
        ExchangeRound::Open {
            members: vec!["planner".to_owned(), "critic".to_owned()],
            remaining: 4,
            next: ExchangeState { rounds: 1 },
        }
    );
}

#[test]
fn advancing_saturates_rather_than_wrapping() {
    assert_eq!(ExchangeState::opened().advanced(), ExchangeState { rounds: 1 });
    assert_eq!(
        ExchangeState { rounds: u32::MAX }.advanced(),
        ExchangeState { rounds: u32::MAX }
    );
}

#[test]
fn desk_visible_rows_never_count_as_spend() {
    let transcript: Vec<SessionMessage> = (1..=8_u64).map(|s| said(s, "planner")).collect();
    assert_eq!(open(&generous(), &transcript), open(&generous(), &[]));
}

#[test]
fn an_episode_carrying_next_opens_at_most_round_cap_rounds() {
    let policy = ExchangePolicy {
        enabled: true,
        contact_cap: 100,
        round_cap: 3,
    };
    let mut carried = ExchangeState::opened();
    let mut opened_rounds = 0;
    for _ in 0..10 {
        match open_after(&policy, &[], carried) {
            ExchangeRound::Open { next, .. } => {
                opened_rounds += 1;
                carried = next;
            }
            ExchangeRound::Closed { reason } => {
                assert_eq!(reason, NoExchangeReason::RoundsSpent);
            }
        }
    }
    assert_eq!(opened_rounds, 3);
    assert_eq!(carried.rounds, 3);
}
