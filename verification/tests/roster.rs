//! Behaviour of roster validation and lookup.

use tinyhivemind::error::Error;
use tinyhivemind::roster::{Person, Roster, RosterMember};

fn member_for_test(id: &str) -> RosterMember {
    RosterMember {
        id: id.into(),
        name: None,
    }
}

#[test]
fn validates_ids_per_namespace_but_allows_alias_collisions() {
    let members = [
        RosterMember {
            id: "same".into(),
            name: Some("Shared".into()),
        },
        RosterMember {
            id: "other".into(),
            name: Some("Shared".into()),
        },
    ];
    let people = [Person {
        id: "same".into(),
        label: "Shared".into(),
    }];
    assert_eq!(Roster::new(&members, &people, &[]).validate(), Ok(()));
}

#[test]
fn rejects_blank_and_duplicate_ids() {
    let blank = [RosterMember {
        id: "  ".into(),
        name: None,
    }];
    assert_eq!(
        Roster::new(&blank, &[], &[]).validate(),
        Err(Error::EmptyRosterMemberId)
    );

    let people = [
        Person {
            id: "p".into(),
            label: "One".into(),
        },
        Person {
            id: "p".into(),
            label: "Two".into(),
        },
    ];
    assert_eq!(
        Roster::new(&[], &people, &[]).validate(),
        Err(Error::DuplicatePersonId {
            person_id: "p".into()
        })
    );

    let members = [member_for_test("a"), member_for_test("a")];
    assert_eq!(
        Roster::new(&members, &[], &[]).validate(),
        Err(Error::DuplicateRosterMemberId {
            member_id: "a".into()
        })
    );

    let blank_person = [Person {
        id: "\t".into(),
        label: String::new(),
    }];
    assert_eq!(
        Roster::new(&[], &blank_person, &[]).validate(),
        Err(Error::EmptyPersonId)
    );
}

#[test]
fn active_lookup_excludes_only_exact_retired_ids() {
    let members = [
        RosterMember {
            id: "alice".into(),
            name: None,
        },
        RosterMember {
            id: "Alice".into(),
            name: None,
        },
    ];
    let retired = [String::from("alice")];
    let roster = Roster::new(&members, &[], &retired);
    assert_eq!(
        roster
            .active_members()
            .into_iter()
            .map(|member| member.id.as_str())
            .collect::<Vec<_>>(),
        vec!["Alice"]
    );
}

#[test]
fn a_member_stays_attributable_after_it_stops_being_active() {
    let members = [
        RosterMember {
            id: "alice".into(),
            name: Some("Alice".into()),
        },
        RosterMember {
            id: "bob".into(),
            name: Some("Bob".into()),
        },
    ];
    let retired = [String::from("bob")];
    let roster = Roster::new(&members, &[], &retired);

    assert!(roster.active_member("bob").is_none());
    assert_eq!(
        roster.registered_member("bob").and_then(|m| m.name.clone()),
        Some("Bob".into())
    );
    assert_eq!(
        roster
            .registered_member("alice")
            .map(|member| member.id.as_str()),
        Some("alice")
    );
    assert!(roster.registered_member("ghost").is_none());
}

#[test]
fn a_tombstoned_member_stays_registered_and_never_runs() {
    let members = [
        RosterMember {
            id: "alice".into(),
            name: Some("Alice".into()),
        },
        RosterMember {
            id: "bob".into(),
            name: Some("Bob".into()),
        },
    ];
    let tombstoned = [String::from("bob")];
    let roster = Roster::new(&members, &[], &[]).with_tombstoned(&tombstoned);

    assert_eq!(
        roster
            .active_members()
            .into_iter()
            .map(|member| member.id.as_str())
            .collect::<Vec<_>>(),
        vec!["alice"]
    );
    assert!(roster.active_member("bob").is_none());
    assert_eq!(
        roster.registered_member("bob").and_then(|m| m.name.clone()),
        Some("Bob".into())
    );
}

#[test]
fn a_tombstone_holds_even_when_the_host_also_calls_the_member_retired() {
    let members = [RosterMember {
        id: "bob".into(),
        name: None,
    }];
    let bob = [String::from("bob")];
    let roster = Roster::new(&members, &[], &bob).with_tombstoned(&bob);

    assert!(roster.active_member("bob").is_none());
    assert!(roster.registered_member("bob").is_some());
}

#[test]
fn asking_whether_a_member_may_run_cannot_tell_the_unavailable_states_apart() {
    let members = [
        member_for_test("active"),
        member_for_test("retired"),
        member_for_test("tombstoned"),
    ];
    let retired = [String::from("retired")];
    let tombstoned = [String::from("tombstoned")];
    let roster = Roster::new(&members, &[], &retired).with_tombstoned(&tombstoned);

    for id in ["retired", "tombstoned", "never_existed"] {
        assert!(roster.active_member(id).is_none(), "{id} must not run");
    }

    assert_eq!(roster.is_retired("retired"), roster.is_retired("tombstoned"));
    assert!(roster.is_retired("tombstoned"));
    assert!(!roster.is_retired("never_existed"));
    assert!(!roster.is_retired("active"));
}

// ---------------------------------------------------------------------------
// Further cases.
// ---------------------------------------------------------------------------

#[test]
fn a_member_fault_is_reported_before_a_person_fault() {
    let members = [member_for_test("a"), member_for_test("a")];
    let people = [Person {
        id: " ".into(),
        label: String::new(),
    }];
    assert_eq!(
        Roster::new(&members, &people, &[]).validate(),
        Err(Error::DuplicateRosterMemberId {
            member_id: "a".into()
        })
    );
}

#[test]
fn unicode_white_space_is_blank() {
    let blank = [member_for_test("\u{3000}\u{a0}")];
    assert_eq!(
        Roster::new(&blank, &[], &[]).validate(),
        Err(Error::EmptyRosterMemberId)
    );
}

#[test]
fn people_and_persons_are_found_in_order() {
    let people = [
        Person {
            id: "p1".into(),
            label: "One".into(),
        },
        Person {
            id: "p2".into(),
            label: "Two".into(),
        },
    ];
    let roster = Roster::new(&[], &people, &[]);
    assert_eq!(
        roster.people().into_iter().map(|p| p.id.as_str()).collect::<Vec<_>>(),
        vec!["p1", "p2"]
    );
    assert_eq!(roster.person("p2").map(|p| p.label.as_str()), Some("Two"));
    assert!(roster.person("p3").is_none());
}
