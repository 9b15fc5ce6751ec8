//! Behaviour of binding accepted routes to existing agent instances.

use tinyhivemind::agents::{AgentRegistry, AgentRegistryError, RoutedAgent, RoutedAgents, RoutingPlan};

#[derive(Debug, Eq, PartialEq)]
struct Agent(&'static str);

struct NotCloneOrCopy;

fn assert_clone<T: Clone>() {}

fn assert_copy<T: Copy>() {}

fn agents() -> Result<AgentRegistry<Agent>, AgentRegistryError> {
    AgentRegistry::new(vec![
        ("engineering".to_string(), Agent("same engineering instance")),
        ("legal".to_string(), Agent("same legal instance")),
    ])
}

fn fallback(id: &str) -> RoutingPlan {
    RoutingPlan::Fallback {
        responder_id: id.to_string(),
    }
}

#[test]
fn repeated_routes_return_the_same_instantiated_agent() -> Result<(), Box<dyn std::error::Error>> {
    let agents = agents().map_err(|e| format!("{e:?}"))?;
    let first = agents.resolve(&fallback("engineering")).map_err(|e| format!("{e:?}"))?;
    let second = agents.resolve(&fallback("engineering")).map_err(|e| format!("{e:?}"))?;
    let (RoutedAgents::One(first), RoutedAgents::One(second)) = (first, second) else {
        return Err("fallbacks did not resolve one agent".into());
    };

    assert!(std::ptr::eq(first.agent, second.agent));
    assert_eq!(first.agent, &Agent("same engineering instance"));
    Ok(())
}

#[test]
fn routing_never_constructs_a_missing_agent() {
    assert_eq!(
        agents()
            .and_then(|agents| agents.resolve(&fallback("finance")).map(|_| ()))
            .err(),
        Some(AgentRegistryError::MissingAgent("finance".to_string()))
    );
}

#[test]
fn blank_and_duplicate_registry_ids_fail_closed() {
    assert_eq!(
        AgentRegistry::new(vec![(" ".to_string(), Agent("blank"))]).err(),
        Some(AgentRegistryError::BlankId)
    );
    assert_eq!(
        AgentRegistry::new(vec![
            ("engineering".to_string(), Agent("first")),
            ("engineering".to_string(), Agent("second")),
        ])
        .err(),
        Some(AgentRegistryError::DuplicateId("engineering".to_string()))
    );
}

#[test]
fn a_hive_preserves_primary_then_invitation_order() -> Result<(), String> {
    let agents = agents().map_err(|e| format!("{e:?}"))?;
    let plan = RoutingPlan::Hive {
        primary_id: "engineering".into(),
        invited_ids: vec!["legal".into()],
    };
    let RoutedAgents::Hive { primary, invited } =
        agents.resolve(&plan).map_err(|e| format!("{e:?}"))?
    else {
        return Err("hive plan did not resolve a hive".into());
    };

    assert_eq!(primary.id, "engineering");
    assert_eq!(invited.len(), 1);
    assert_eq!(invited[0].id, "legal");
    Ok(())
}

#[test]
fn a_clarification_authorizes_no_agent_turn() -> Result<(), AgentRegistryError> {
    let plan = RoutingPlan::Clarify;
    assert!(matches!(agents()?.resolve(&plan)?, RoutedAgents::Clarify));
    Ok(())
}

#[test]
fn a_hive_cannot_repeat_an_instantiated_agent() {
    let plan = RoutingPlan::Hive {
        primary_id: "engineering".into(),
        invited_ids: vec!["engineering".into()],
    };
    assert_eq!(
        agents()
            .and_then(|agents| agents.resolve(&plan).map(|_| ()))
            .err(),
        Some(AgentRegistryError::DuplicateRoutedAgent("engineering".into()))
    );
}

#[test]
fn borrowed_route_views_do_not_require_traits_from_the_agent() {
    assert_clone::<RoutedAgent<'static, NotCloneOrCopy>>();
    assert_copy::<RoutedAgent<'static, NotCloneOrCopy>>();
    assert_clone::<RoutedAgents<'static, NotCloneOrCopy>>();
}

// ---------------------------------------------------------------------------
// Further cases.
// ---------------------------------------------------------------------------

#[test]
fn get_finds_only_registered_ids() {
    let agents = agents().unwrap();
    assert_eq!(agents.get("legal"), Some(&Agent("same legal instance")));
    assert_eq!(agents.get("Legal"), None);
}

#[test]
fn a_hive_reports_the_first_fault_in_invitation_order() {
    let agents = agents().unwrap();
    let missing_first = RoutingPlan::Hive {
        primary_id: "engineering".into(),
        invited_ids: vec!["finance".into(), "engineering".into()],
    };
    assert_eq!(
        agents.resolve(&missing_first).map(|_| ()).err(),
        Some(AgentRegistryError::MissingAgent("finance".into()))
    );
    let repeat_first = RoutingPlan::Hive {
        primary_id: "engineering".into(),
        invited_ids: vec!["legal".into(), "legal".into(), "finance".into()],
    };
    assert_eq!(
        agents.resolve(&repeat_first).map(|_| ()).err(),
        Some(AgentRegistryError::DuplicateRoutedAgent("legal".into()))
    );
    let missing_primary = RoutingPlan::One {
        responder_id: "finance".into(),
    };
    assert_eq!(
        agents.resolve(&missing_primary).map(|_| ()).err(),
        Some(AgentRegistryError::MissingAgent("finance".into()))
    );
}

#[test]
fn a_cloned_route_keeps_its_shape() {
    let agents = agents().unwrap();
    let plan = RoutingPlan::Hive {
        primary_id: "legal".into(),
        invited_ids: vec!["engineering".into()],
    };
    let routed = agents.resolve(&plan).unwrap();
    let RoutedAgents::Hive { primary, invited } = routed.clone() else {
        panic!("expected a hive");
    };
    assert_eq!(primary.id, "legal");
    assert_eq!(invited[0].agent, &Agent("same engineering instance"));
}
