//! Agent and person identities visible in one shared conversation.

use vstd::prelude::*;

use crate::error::Error;
use crate::text::{is_blank, str_eq, str_is_blank};

verus! {

/// One registered agent.
#[derive(Clone, Debug, Eq, PartialEq)]
pub struct RosterMember {
    /// Exact, case-sensitive agent id.
    pub id: String,
    /// Display name, when the agent has one.
    pub name: Option<String>,
}

/// One human participant.
#[derive(Clone, Debug, Eq, PartialEq)]
pub struct Person {
    /// Exact, case-sensitive person id.
    pub id: String,
    /// Display label.
    pub label: String,
}

/// A borrowed view of current agent and person identities.
///
/// An agent is in one of three states, a fold over the borrowed id lists:
///
/// - **Active**: in `members`, in neither id list.
/// - **Retired**: in `retired_member_ids`; the host may put it back.
/// - **Tombstoned**: in `tombstoned_member_ids`; removed for good, but its
///   [`RosterMember`] stays registered so its old messages stay attributable,
///   and its id stays taken.
#[derive(Debug)]
pub struct Roster<'a> {
    members: &'a [RosterMember],
    people: &'a [Person],
    retired_member_ids: &'a [String],
    tombstoned_member_ids: &'a [String],
}

/// Member `i` of `ms` is blank, or repeats an earlier member's id.
pub open spec fn member_fault(ms: Seq<RosterMember>, i: int) -> bool {
    ||| is_blank(ms[i].id@)
    ||| exists|j: int| 0 <= j < i && ms[j].id@ == ms[i].id@
}

/// Person `i` of `ps` is blank, or repeats an earlier person's id.
pub open spec fn person_fault(ps: Seq<Person>, i: int) -> bool {
    ||| is_blank(ps[i].id@)
    ||| exists|j: int| 0 <= j < i && ps[j].id@ == ps[i].id@
}

/// Whether `id` is one of `ids`.
pub open spec fn lists(ids: Seq<String>, id: Seq<char>) -> bool {
    exists|k: int| 0 <= k < ids.len() && (#[trigger] ids[k])@ == id
}

/// The members of `ms` whose ids `roster` keeps in rotation, in order.
pub open spec fn active_of(roster: Roster, ms: Seq<RosterMember>) -> Seq<RosterMember>
    decreases ms.len(),
{
    if ms.len() == 0 {
        seq![]
    } else if roster.out_of_rotation(ms.last().id@) {
        active_of(roster, ms.drop_last())
    } else {
        active_of(roster, ms.drop_last()).push(ms.last())
    }
}

/// Index of the first member of `ms` with id `id`, when there is one.
pub open spec fn first_with_id(ms: Seq<RosterMember>, id: Seq<char>, k: int) -> bool {
    &&& 0 <= k < ms.len()
    &&& ms[k].id@ == id
    &&& forall|j: int| 0 <= j < k ==> (#[trigger] ms[j]).id@ != id
}

/// Asking whether an agent may run cannot tell a retired id, a tombstoned id
/// and an id the roster never held apart: all three are refused alike. And
/// leaving rotation never unregisters a member, so its history stays
/// attributable.
pub proof fn law_unavailable_agents_are_indistinguishable(roster: Roster, id: Seq<char>)
    ensures
        lists(roster.retired_ids(), id) ==> !roster.is_active(id),
        lists(roster.tombstoned_ids(), id) ==> !roster.is_active(id),
        !(exists|k: int|
            0 <= k < roster.member_records().len() && (#[trigger] roster.member_records()[k]).id@
                == id) ==> !roster.is_active(id),
        lists(roster.retired_ids(), id) || lists(roster.tombstoned_ids(), id) <==> roster.out_of_rotation(id),
{
}

impl<'a> Roster<'a> {
    /// The registered agents, in roster order.
    pub closed spec fn member_records(&self) -> Seq<RosterMember> {
        self.members@
    }

    /// The people, in roster order.
    pub closed spec fn person_records(&self) -> Seq<Person> {
        self.people@
    }

    /// The retired ids.
    pub closed spec fn retired_ids(&self) -> Seq<String> {
        self.retired_member_ids@
    }

    /// The tombstoned ids.
    pub closed spec fn tombstoned_ids(&self) -> Seq<String> {
        self.tombstoned_member_ids@
    }

    /// The agent id is retired or tombstoned.
    pub open spec fn out_of_rotation(&self, id: Seq<char>) -> bool {
        lists(self.retired_ids(), id) || lists(self.tombstoned_ids(), id)
    }

    /// The agent id is registered and in rotation.
    pub open spec fn is_active(&self, id: Seq<char>) -> bool {
        &&& exists|k: int| 0 <= k < self.member_records().len() && (#[trigger] self.member_records()[k]).id@ == id
        &&& !self.out_of_rotation(id)
    }

    /// No member and no person is blank or repeated.
    pub open spec fn well_formed(&self) -> bool {
        &&& forall|i: int| 0 <= i < self.member_records().len() ==> !#[trigger] member_fault(self.member_records(), i)
        &&& forall|i: int| 0 <= i < self.person_records().len() ==> !#[trigger] person_fault(self.person_records(), i)
    }

    /// Borrow the snapshots that define the current roster. No agent is
    /// tombstoned; add that snapshot with [`Self::with_tombstoned`].
    pub fn new(
        members: &'a [RosterMember],
        people: &'a [Person],
        retired_member_ids: &'a [String],
    ) -> (r: Self)
        ensures
            r.member_records() == members@,
            r.person_records() == people@,
            r.retired_ids() == retired_member_ids@,
            r.tombstoned_ids() == Seq::<String>::empty(),
    {
        Roster { members, people, retired_member_ids, tombstoned_member_ids: &[] }
    }

    /// Borrow the ids of agents that were removed for good.
    pub fn with_tombstoned(self, tombstoned_member_ids: &'a [String]) -> (r: Self)
        ensures
            r.member_records() == self.member_records(),
            r.person_records() == self.person_records(),
            r.retired_ids() == self.retired_ids(),
            r.tombstoned_ids() == tombstoned_member_ids@,
    {
        Roster { tombstoned_member_ids, ..self }
    }

    /// `e` is the error for this roster's first blank or repeated id,
    /// members before people.
    pub open spec fn reports(&self, e: Error) -> bool {
                ||| exists|i: int|
            0 <= i < self.member_records().len() && #[trigger] member_fault(
                self.member_records(),
                i,
            ) && (forall|j: int| 0 <= j < i ==> !#[trigger] member_fault(
                self.member_records(),
                j,
            )) && if is_blank(self.member_records()[i].id@) {
                e == Error::EmptyRosterMemberId
            } else {
                e matches Error::DuplicateRosterMemberId { member_id } && member_id@
                    == self.member_records()[i].id@
            }
        ||| (forall|i: int| 0 <= i < self.member_records().len() ==> !#[trigger] member_fault(
            self.member_records(),
            i,
        )) && exists|i: int|
            0 <= i < self.person_records().len() && #[trigger] person_fault(
                self.person_records(),
                i,
            ) && (forall|j: int| 0 <= j < i ==> !#[trigger] person_fault(
                self.person_records(),
                j,
            )) && if is_blank(self.person_records()[i].id@) {
                e == Error::EmptyPersonId
            } else {
                e matches Error::DuplicatePersonId { person_id } && person_id@
                    == self.person_records()[i].id@
            }
        }

    /// Validate structural identity invariants.
    ///
    /// Agent and person ids occupy independent namespaces. Display names are
    /// allowed to collide. The first blank or repeated id, members before
    /// people, is the error.
    pub fn validate(&self) -> (r: Result<(), Error>)
        ensures
            r is Ok <==> self.well_formed(),
            r matches Err(e) ==> self.reports(e),
    {
        let ms = self.members;
        let mut i: usize = 0;
        while i < ms.len()
            invariant
                ms@ == self.member_records(),
                i <= ms@.len(),
                forall|j: int| 0 <= j < i ==> !#[trigger] member_fault(ms@, j),
            decreases ms.len() - i,
        {
            let id = ms[i].id.as_str();
            if str_is_blank(id) {
                assert(member_fault(ms@, i as int));
                return Err(Error::EmptyRosterMemberId);
            }
            let mut j: usize = 0;
            while j < i
                invariant
                    ms@ == self.member_records(),
                    i < ms@.len(),
                    id@ == ms@[i as int].id@,
                    !is_blank(ms@[i as int].id@),
                    forall|k: int| 0 <= k < i ==> !#[trigger] member_fault(ms@, k),
                    j <= i,
                    forall|k: int| 0 <= k < j ==> ms@[k].id@ != ms@[i as int].id@,
                decreases i - j,
            {
                if str_eq(ms[j].id.as_str(), id) {
                    assert(member_fault(ms@, i as int));
                    return Err(Error::DuplicateRosterMemberId { member_id: ms[i].id.clone() });
                }
                j = j + 1;
            }
            i = i + 1;
        }
        let ps = self.people;
        let mut i: usize = 0;
        while i < ps.len()
            invariant
                ms@ == self.member_records(),
                ps@ == self.person_records(),
                forall|j: int| 0 <= j < ms@.len() ==> !#[trigger] member_fault(ms@, j),
                i <= ps@.len(),
                forall|j: int| 0 <= j < i ==> !#[trigger] person_fault(ps@, j),
            decreases ps.len() - i,
        {
            let id = ps[i].id.as_str();
            if str_is_blank(id) {
                assert(person_fault(ps@, i as int));
                return Err(Error::EmptyPersonId);
            }
            let mut j: usize = 0;
            while j < i
                invariant
                    ps@ == self.person_records(),
                    i < ps@.len(),
                    id@ == ps@[i as int].id@,
                    !is_blank(ps@[i as int].id@),
                    forall|k: int| 0 <= k < ms@.len() ==> !#[trigger] member_fault(ms@, k),
                    ms@ == self.member_records(),
                    forall|k: int| 0 <= k < i ==> !#[trigger] person_fault(ps@, k),
                    j <= i,
                    forall|k: int| 0 <= k < j ==> ps@[k].id@ != ps@[i as int].id@,
                decreases i - j,
            {
                if str_eq(ps[j].id.as_str(), id) {
                    assert(person_fault(ps@, i as int));
                    return Err(Error::DuplicatePersonId { person_id: ps[i].id.clone() });
                }
                j = j + 1;
            }
            i = i + 1;
        }
        Ok(())
    }

    /// Active agents, in roster order.
    pub fn active_members(&self) -> (r: Vec<&'a RosterMember>)
        ensures
            r@.len() == active_of(*self, self.member_records()).len(),
            forall|k: int| 0 <= k < r@.len() ==> *r@[k] == active_of(*self, self.member_records())[k],
    {
        let ms = self.members;
        let mut r: Vec<&'a RosterMember> = Vec::new();
        let mut i: usize = 0;
        while i < ms.len()
            invariant
                ms@ == self.member_records(),
                i <= ms@.len(),
                r@.len() == active_of(*self, ms@.take(i as int)).len(),
                forall|k: int| 0 <= k < r@.len() ==> *r@[k] == active_of(*self, ms@.take(i as int))[k],
            decreases ms.len() - i,
        {
            assert(ms@.take(i + 1).drop_last() =~= ms@.take(i as int));
            if !self.is_retired(ms[i].id.as_str()) {
                r.push(&ms[i]);
            }
            i = i + 1;
        }
        assert(ms@.take(i as int) =~= ms@);
        r
    }

    /// Find an active agent by its exact id.
    pub fn active_member(&self, id: &str) -> (r: Option<&'a RosterMember>)
        ensures
            r is Some <==> self.is_active(id@),
            r matches Some(m) ==> exists|k: int| first_with_id(self.member_records(), id@, k)
                && *m == self.member_records()[k],
    {
        match self.registered_member(id) {
            Some(m) => {
                if self.is_retired(id) {
                    None
                } else {
                    Some(m)
                }
            },
            None => None,
        }
    }

    /// Find any registered agent by its exact id, active or not.
    ///
    /// This is the attribution lookup, the only one that sees an agent the
    /// roster no longer runs. It is not a routing input.
    pub fn registered_member(&self, id: &str) -> (r: Option<&'a RosterMember>)
        ensures
            r is Some <==> exists|k: int| 0 <= k < self.member_records().len() && (
            #[trigger] self.member_records()[k]).id@ == id@,
            r matches Some(m) ==> exists|k: int| first_with_id(self.member_records(), id@, k)
                && *m == self.member_records()[k],
    {
        let ms = self.members;
        let mut i: usize = 0;
        while i < ms.len()
            invariant
                ms@ == self.member_records(),
                i <= ms@.len(),
                forall|j: int| 0 <= j < i ==> (#[trigger] ms@[j]).id@ != id@,
            decreases ms.len() - i,
        {
            if str_eq(ms[i].id.as_str(), id) {
                assert(first_with_id(ms@, id@, i as int));
                return Some(&ms[i]);
            }
            i = i + 1;
        }
        None
    }

    /// Find a person by its exact id.
    pub fn person(&self, id: &str) -> (r: Option<&'a Person>)
        ensures
            r is Some <==> exists|k: int| 0 <= k < self.person_records().len() && (
            #[trigger] self.person_records()[k]).id@ == id@,
            r matches Some(p) ==> exists|k: int|
                0 <= k < self.person_records().len() && self.person_records()[k] == *p && p.id@
                    == id@ && forall|j: int| 0 <= j < k ==> (#[trigger] self.person_records()[j]).id@
                    != id@,
    {
        let ps = self.people;
        let mut i: usize = 0;
        while i < ps.len()
            invariant
                ps@ == self.person_records(),
                i <= ps@.len(),
                forall|j: int| 0 <= j < i ==> (#[trigger] ps@[j]).id@ != id@,
            decreases ps.len() - i,
        {
            if str_eq(ps[i].id.as_str(), id) {
                return Some(&ps[i]);
            }
            i = i + 1;
        }
        None
    }

    /// People, in roster order.
    pub fn people(&self) -> (r: Vec<&'a Person>)
        ensures
            r@.len() == self.person_records().len(),
            forall|k: int| 0 <= k < r@.len() ==> *r@[k] == self.person_records()[k],
    {
        let ps = self.people;
        let mut r: Vec<&'a Person> = Vec::new();
        let mut i: usize = 0;
        while i < ps.len()
            invariant
                ps@ == self.person_records(),
                i <= ps@.len(),
                r@.len() == i,
                forall|k: int| 0 <= k < i ==> *r@[k] == ps@[k],
            decreases ps.len() - i,
        {
            r.push(&ps[i]);
            i = i + 1;
        }
        r
    }

    /// Whether an agent id is out of the active roster.
    ///
    /// Retired and tombstoned ids both answer `true`: the two states differ in
    /// whether the host may reverse them, never in whether the agent may run.
    pub fn is_retired(&self, id: &str) -> (b: bool)
        ensures
            b == self.out_of_rotation(id@),
    {
        let rs = self.retired_member_ids;
        let mut i: usize = 0;
        while i < rs.len()
            invariant
                rs@ == self.retired_ids(),
                i <= rs@.len(),
                forall|j: int| 0 <= j < i ==> (#[trigger] rs@[j])@ != id@,
            decreases rs.len() - i,
        {
            if str_eq(rs[i].as_str(), id) {
                return true;
            }
            i = i + 1;
        }
        self.is_tombstoned_id(id)
    }

    fn is_tombstoned_id(&self, id: &str) -> (b: bool)
        ensures
            b == lists(self.tombstoned_ids(), id@),
    {
        let ts = self.tombstoned_member_ids;
        let mut i: usize = 0;
        while i < ts.len()
            invariant
                ts@ == self.tombstoned_ids(),
                i <= ts@.len(),
                forall|j: int| 0 <= j < i ==> (#[trigger] ts@[j])@ != id@,
            decreases ts.len() - i,
        {
            if str_eq(ts[i].as_str(), id) {
                return true;
            }
            i = i + 1;
        }
        false
    }
}

} // verus!
