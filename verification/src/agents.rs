//! Opaque instantiated-agent registry and route resolution values.

use vstd::prelude::*;

use crate::text::{is_blank, str_eq, str_is_blank};

verus! {

broadcast use vstd::string::group_string_axioms;

/// A validation failure while registering or resolving instantiated agents.
#[derive(Clone, Debug, Eq, PartialEq)]
pub enum AgentRegistryError {
    /// A registry key contains no canonical agent id.
    BlankId,
    /// Two instantiated handles claim the same canonical agent id.
    DuplicateId(String),
    /// An accepted route names no instantiated handle.
    MissingAgent(String),
    /// A hive route names one instantiated handle more than once.
    DuplicateRoutedAgent(String),
}

/// What an accepted routing plan authorizes, as the registry reads it.
#[derive(Clone, Debug, Eq, PartialEq)]
pub enum RoutingPlan {
    /// One direct, semantic or surface-rule responder.
    One {
        /// The responder's canonical id.
        responder_id: String,
    },
    /// One responder chosen by a deterministic fallback.
    Fallback {
        /// The responder's canonical id.
        responder_id: String,
    },
    /// One primary responder plus invited specialists.
    Hive {
        /// The primary responder's canonical id.
        primary_id: String,
        /// Invited responders, in invitation order.
        invited_ids: Vec<String>,
    },
    /// No turn until the request is clarified.
    Clarify,
}

/// Caller-instantiated agents indexed by canonical routing id.
///
/// `A` remains completely opaque: this type owns no session id, and a
/// runtime-specific agent handle remains responsible for its own continuity.
///
/// The handles are kept in registration order in a `Vec`, with the type
/// invariant that no id is blank and no id repeats; lookups compare ids
/// exactly. A `BTreeMap` keyed by `String` is not used: every clause of
/// vstd's `BTreeMap` specification is conditional on the key type obeying
/// its `Ord` model, which vstd establishes for no `String`, and a lookup by
/// `&str` is tied to the map's contents only for a key looked up as itself or
/// as a `Box` of itself. Nothing about such a map could be proved here.
#[derive(Debug)]
pub struct AgentRegistry<A> {
    agents: Vec<(String, A)>,
}

/// One accepted route id paired with its existing agent instance.
#[derive(Debug)]
pub struct RoutedAgent<'a, A> {
    /// Canonical routing id.
    pub id: &'a str,
    /// The exact instance supplied by the embedding host.
    pub agent: &'a A,
}

impl<A> Copy for RoutedAgent<'_, A> {
}

impl<A> Clone for RoutedAgent<'_, A> {
    fn clone(&self) -> (r: Self)
        ensures
            r == *self,
    {
        *self
    }
}

/// Instantiated agents authorized by one accepted routing plan.
#[derive(Debug)]
pub enum RoutedAgents<'a, A> {
    /// One direct, semantic, surface-rule, or fallback responder.
    One(RoutedAgent<'a, A>),
    /// One primary plus bounded invited specialists.
    Hive {
        /// Primary responder.
        primary: RoutedAgent<'a, A>,
        /// Additional responders in accepted invitation order.
        invited: Vec<RoutedAgent<'a, A>>,
    },
    /// No agent turn is authorized until the request is clarified.
    Clarify,
}

impl<A> Clone for RoutedAgents<'_, A> {
    fn clone(&self) -> (copied: Self)
        ensures
            *self is Hive ==> copied is Hive && copied->primary == self->primary
                && copied->invited@ == self->invited@,
            !(*self is Hive) ==> copied == *self,
    {
        match self {
            RoutedAgents::One(agent) => RoutedAgents::One(*agent),
            RoutedAgents::Hive { primary, invited } => {
                let mut copy: Vec<RoutedAgent<'_, A>> = Vec::new();
                let mut i: usize = 0;
                while i < invited.len()
                    invariant
                        i <= invited@.len(),
                        copy@ == invited@.take(i as int),
                    decreases invited.len() - i,
                {
                    copy.push(invited[i]);
                    assert(copy@ =~= invited@.take(i + 1));
                    i = i + 1;
                }
                assert(copy@ =~= invited@);
                RoutedAgents::Hive { primary: *primary, invited: copy }
            },
            RoutedAgents::Clarify => RoutedAgents::Clarify,
        }
    }
}

/// Entry `i` of `entries` is blank, or repeats an earlier entry's id.
pub open spec fn entry_fault<A>(entries: Seq<(String, A)>, i: int) -> bool {
    ||| is_blank(entries[i].0@)
    ||| exists|j: int| 0 <= j < i && entries[j].0@ == entries[i].0@
}

/// `r` routes `id` to the agent registered under it in `entries`.
pub open spec fn routes_to<A>(r: RoutedAgent<A>, entries: Seq<(String, A)>, id: Seq<char>) -> bool {
    &&& r.id@ == id
    &&& exists|k: int| 0 <= k < entries.len() && entries[k].0@ == id && *r.agent == entries[k].1
}

/// Whether some entry is registered under `id`.
pub open spec fn registered<A>(entries: Seq<(String, A)>, id: Seq<char>) -> bool {
    exists|k: int| 0 <= k < entries.len() && (#[trigger] entries[k]).0@ == id
}

/// The ids a hive plan names, primary first.
pub open spec fn hive_ids(primary: String, invited: Seq<String>) -> Seq<Seq<char>> {
    seq![primary@] + invited.map_values(|s: String| s@)
}

/// Id `i` of `ids` repeats an earlier one, or names nobody registered.
pub open spec fn route_fault<A>(entries: Seq<(String, A)>, ids: Seq<Seq<char>>, i: int) -> bool {
    ids.take(i).contains(ids[i]) || !registered(entries, ids[i])
}

impl<A> AgentRegistry<A> {
    /// The registered `(id, agent)` pairs, in registration order.
    pub closed spec fn entries(&self) -> Seq<(String, A)> {
        self.agents@
    }

    /// Every id is present and none repeats.
    #[verifier::type_invariant]
    spec fn inv(&self) -> bool {
        forall|i: int| 0 <= i < self.agents@.len() ==> !#[trigger] entry_fault(self.agents@, i)
    }

    /// Register already-instantiated agents under their canonical routing
    /// ids. The first blank or repeated id is the error.
    pub fn new(agents: Vec<(String, A)>) -> (r: Result<Self, AgentRegistryError>)
        ensures
            r matches Ok(reg) ==> reg.entries() == agents@ && forall|i: int|
                0 <= i < agents@.len() ==> !#[trigger] entry_fault(agents@, i),
            r matches Err(e) ==> exists|i: int|
                0 <= i < agents@.len() && #[trigger] entry_fault(agents@, i) && (forall|j: int|
                    0 <= j < i ==> !#[trigger] entry_fault(agents@, j)) && if is_blank(
                    agents@[i].0@,
                ) {
                    e == AgentRegistryError::BlankId
                } else {
                    e matches AgentRegistryError::DuplicateId(d) && d@ == agents@[i].0@
                },
            r is Err <==> exists|i: int| 0 <= i < agents@.len() && #[trigger] entry_fault(agents@, i),
    {
        let mut i: usize = 0;
        while i < agents.len()
            invariant
                i <= agents@.len(),
                forall|j: int| 0 <= j < i ==> !#[trigger] entry_fault(agents@, j),
            decreases agents.len() - i,
        {
            let id = agents[i].0.as_str();
            if str_is_blank(id) {
                assert(entry_fault(agents@, i as int));
                return Err(AgentRegistryError::BlankId);
            }
            let mut j: usize = 0;
            while j < i
                invariant
                    i < agents@.len(),
                    id@ == agents@[i as int].0@,
                    !is_blank(agents@[i as int].0@),
                    forall|k: int| 0 <= k < i ==> !#[trigger] entry_fault(agents@, k),
                    j <= i,
                    forall|k: int| 0 <= k < j ==> agents@[k].0@ != agents@[i as int].0@,
                decreases i - j,
            {
                if str_eq(agents[j].0.as_str(), id) {
                    assert(entry_fault(agents@, i as int));
                    return Err(AgentRegistryError::DuplicateId(agents[i].0.clone()));
                }
                j = j + 1;
            }
            i = i + 1;
        }
        Ok(AgentRegistry { agents })
    }

    /// Return the instantiated agent registered under `id`.
    pub fn get(&self, id: &str) -> (r: Option<&A>)
        ensures
            r is Some <==> registered(self.entries(), id@),
            r matches Some(a) ==> exists|k: int|
                0 <= k < self.entries().len() && self.entries()[k].0@ == id@ && *a
                    == self.entries()[k].1,
    {
        match self.find(id) {
            Some(k) => Some(&self.agents[k].1),
            None => None,
        }
    }

    fn find(&self, id: &str) -> (r: Option<usize>)
        ensures
            r is Some <==> registered(self.entries(), id@),
            r matches Some(k) ==> k < self.entries().len() && self.entries()[k as int].0@ == id@,
    {
        let mut i: usize = 0;
        while i < self.agents.len()
            invariant
                i <= self.agents@.len(),
                forall|j: int| 0 <= j < i ==> (#[trigger] self.agents@[j]).0@ != id@,
            decreases self.agents.len() - i,
        {
            if str_eq(self.agents[i].0.as_str(), id) {
                return Some(i);
            }
            i = i + 1;
        }
        None
    }

    fn routed(&self, id: &str) -> (r: Result<RoutedAgent<'_, A>, AgentRegistryError>)
        ensures
            r is Ok <==> registered(self.entries(), id@),
            r matches Ok(a) ==> routes_to(a, self.entries(), id@),
            r matches Err(e) ==> e matches AgentRegistryError::MissingAgent(m) && m@ == id@,
    {
        match self.find(id) {
            Some(k) => Ok(RoutedAgent { id: self.agents[k].0.as_str(), agent: &self.agents[k].1 }),
            None => Err(AgentRegistryError::MissingAgent(id.to_string())),
        }
    }

    fn resolve_hive(&self, primary_id: &String, invited_ids: &Vec<String>) -> (r: Result<
        RoutedAgents<'_, A>,
        AgentRegistryError,
    >)
        ensures
            ({
                let ids = hive_ids(*primary_id, invited_ids@);
            &&& r is Ok <==> forall|i: int|
                0 <= i < ids.len() ==> !#[trigger] route_fault(self.entries(), ids, i)
            &&& r matches Ok(routed) ==> (routed matches RoutedAgents::Hive {
                primary,
                invited,
            } && routes_to(primary, self.entries(), ids[0]) && invited@.len()
                == invited_ids@.len() && forall|i: int|
                0 <= i < invited@.len() ==> routes_to(
                    #[trigger] invited@[i],
                    self.entries(),
                    invited_ids@[i]@,
                ))
            &&& r matches Err(e) ==> exists|i: int|
                0 <= i < ids.len() && #[trigger] route_fault(self.entries(), ids, i) && (
                forall|j: int| 0 <= j < i ==> !#[trigger] route_fault(self.entries(), ids, j))
                    && if ids.take(i).contains(ids[i]) {
                    e matches AgentRegistryError::DuplicateRoutedAgent(d) && d@ == ids[i]
                } else {
                    e matches AgentRegistryError::MissingAgent(m) && m@ == ids[i]
                }
                    }),
    {
        let ghost ids = hive_ids(*primary_id, invited_ids@);
        assert(ids[0] == primary_id@);
        assert(ids.take(0) =~= Seq::<Seq<char>>::empty());
        let primary = match self.routed(primary_id.as_str()) {
            Ok(a) => a,
            Err(e) => {
                assert(!ids.take(0).contains(ids[0]));
                assert(route_fault(self.entries(), ids, 0));
                return Err(e);
            },
        };
        let mut seen: Vec<&str> = Vec::new();
        seen.push(primary_id.as_str());
        let mut invited: Vec<RoutedAgent<'_, A>> = Vec::new();
        let mut i: usize = 0;
        while i < invited_ids.len()
            invariant
                ids == hive_ids(*primary_id, invited_ids@),
                i <= invited_ids@.len(),
                seen@.len() == i + 1,
                forall|k: int| 0 <= k <= i ==> (#[trigger] seen@[k])@ == ids[k],
                forall|k: int| 0 <= k <= i ==> !#[trigger] route_fault(self.entries(), ids, k),
                invited@.len() == i,
                forall|k: int|
                    0 <= k < i ==> routes_to(
                        #[trigger] invited@[k],
                        self.entries(),
                        invited_ids@[k]@,
                    ),
            decreases invited_ids.len() - i,
        {
            let id = invited_ids[i].as_str();
            let ghost x = i + 1;
            assert(ids[x] == id@);
            let mut s: usize = 0;
            while s < seen.len()
                invariant
                    ids == hive_ids(*primary_id, invited_ids@),
                    x == i + 1,
                    i < invited_ids@.len(),
                    ids[x] == id@,
                    seen@.len() == i + 1,
                    forall|k: int| 0 <= k <= i ==> (#[trigger] seen@[k])@ == ids[k],
                    forall|k: int| 0 <= k <= i ==> !#[trigger] route_fault(self.entries(), ids, k),
                    s <= seen@.len(),
                    forall|k: int| 0 <= k < s ==> ids[k] != id@,
                decreases seen.len() - s,
            {
                if str_eq(seen[s], id) {
                    proof {
                        assert(ids.take(x)[s as int] == ids[x]);
                        assert(route_fault(self.entries(), ids, x));
                    }
                    return Err(AgentRegistryError::DuplicateRoutedAgent(id.to_string()));
                }
                s = s + 1;
            }
            assert(!ids.take(x).contains(ids[x])) by {
                assert forall|k: int| 0 <= k < x implies ids.take(x)[k] != ids[x] by {
                    assert(ids.take(x)[k] == ids[k]);
                }
            }
            let agent = match self.routed(id) {
                Ok(a) => a,
                Err(e) => {
                    assert(route_fault(self.entries(), ids, x));
                    return Err(e);
                },
            };
            invited.push(agent);
            seen.push(id);
            i = i + 1;
        }
        Ok(RoutedAgents::Hive { primary, invited })
    }

    /// Resolve an accepted plan to borrowed instantiated agents.
    ///
    /// A single or fallback plan resolves one agent. A hive resolves the
    /// primary first and specialists in the plan's invitation order; the
    /// first id that repeats an earlier one, or names nobody registered, is
    /// the error. A clarification resolves no agent.
    pub fn resolve(&self, plan: &RoutingPlan) -> (r: Result<RoutedAgents<'_, A>, AgentRegistryError>)
        ensures
            match *plan {
                RoutingPlan::One { responder_id } => {
                    &&& r is Ok <==> registered(self.entries(), responder_id@)
                    &&& r matches Ok(routed) ==> (routed matches RoutedAgents::One(a) && routes_to(
                        a,
                        self.entries(),
                        responder_id@,
                    ))
                    &&& r matches Err(e) ==> (e matches AgentRegistryError::MissingAgent(m) && m@
                        == responder_id@)
                                },
                RoutingPlan::Fallback { responder_id } => {
                    &&& r is Ok <==> registered(self.entries(), responder_id@)
                    &&& r matches Ok(routed) ==> (routed matches RoutedAgents::One(a) && routes_to(
                        a,
                        self.entries(),
                        responder_id@,
                    ))
                    &&& r matches Err(e) ==> (e matches AgentRegistryError::MissingAgent(m) && m@
                        == responder_id@)
                                },
                RoutingPlan::Hive { primary_id, invited_ids } => {
                    let ids = hive_ids(primary_id, invited_ids@);
                    &&& r is Ok <==> forall|i: int|
                        0 <= i < ids.len() ==> !#[trigger] route_fault(self.entries(), ids, i)
                    &&& r matches Ok(routed) ==> (routed matches RoutedAgents::Hive {
                        primary,
                        invited,
                    } && routes_to(primary, self.entries(), ids[0]) && invited@.len()
                        == invited_ids@.len() && forall|i: int|
                        0 <= i < invited@.len() ==> routes_to(
                            #[trigger] invited@[i],
                            self.entries(),
                            invited_ids@[i]@,
                        ))
                    &&& r matches Err(e) ==> exists|i: int|
                        0 <= i < ids.len() && #[trigger] route_fault(self.entries(), ids, i) && (
                        forall|j: int| 0 <= j < i ==> !#[trigger] route_fault(self.entries(), ids, j))
                            && if ids.take(i).contains(ids[i]) {
                            e matches AgentRegistryError::DuplicateRoutedAgent(d) && d@ == ids[i]
                        } else {
                            e matches AgentRegistryError::MissingAgent(m) && m@ == ids[i]
                        }
                                },
                RoutingPlan::Clarify => r matches Ok(routed) && routed is Clarify,
            },
    {
        match plan {
            RoutingPlan::One { responder_id } => Ok(RoutedAgents::One(self.routed(responder_id.as_str())?)),
            RoutingPlan::Fallback { responder_id } => Ok(RoutedAgents::One(self.routed(responder_id.as_str())?)),
            RoutingPlan::Hive { primary_id, invited_ids } => self.resolve_hive(primary_id, invited_ids),
            RoutingPlan::Clarify => Ok(RoutedAgents::Clarify),
        }
    }
}

} // verus!
