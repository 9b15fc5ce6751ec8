//! Desks: named rooms with an ordered membership list.

use vstd::prelude::*;

use crate::error::Error;
use crate::text::{is_blank, str_eq, str_is_blank};

verus! {

broadcast use vstd::string::group_string_axioms;

/// How a desk picks who answers an unaddressed message.
#[derive(Clone, Copy, Debug, Eq, PartialEq)]
pub enum ResponderMode {
    /// The first effective member answers.
    Lead,
    /// A selector may choose among the effective members.
    Auto,
}

/// One desk record.
#[derive(Clone, Debug, Eq, PartialEq)]
pub struct Desk {
    /// Canonical, case-sensitive desk id.
    pub id: String,
    /// Display name.
    pub name: String,
    /// Optional description.
    pub description: Option<String>,
    /// Member agent ids, in desk order.
    pub members: Vec<String>,
    /// How the desk picks a default responder.
    pub responder_mode: ResponderMode,
}

/// The id of the conversation every active agent is present in.
///
/// General has no membership list, so no desk record describes it.
pub const GENERAL_DESK: &'static str = "General";

/// The id of the General conversation, as text.
pub open spec fn general_desk_id() -> Seq<char> {
    GENERAL_DESK@
}

/// Whether `desk_id` names the General conversation.
pub fn is_general_desk(desk_id: &str) -> (b: bool)
    ensures
        b == (desk_id@ == general_desk_id()),
{
    str_eq(desk_id, GENERAL_DESK)
}

/// A borrowed snapshot of every desk.
#[derive(Debug)]
pub struct DeskSet<'a> {
    desks: &'a [Desk],
}

/// Desk `i` of `ds` is blank, or repeats an earlier desk's id.
pub open spec fn desk_fault(ds: Seq<Desk>, i: int) -> bool {
    ||| is_blank(ds[i].id@)
    ||| exists|j: int| 0 <= j < i && ds[j].id@ == ds[i].id@
}

/// Desk `k` is the first desk of `ds` whose id is `id`.
pub open spec fn first_desk_with_id(ds: Seq<Desk>, id: Seq<char>, k: int) -> bool {
    &&& 0 <= k < ds.len()
    &&& ds[k].id@ == id
    &&& forall|j: int| 0 <= j < k ==> (#[trigger] ds[j]).id@ != id
}

/// Some desk of `ds` has id `id`.
pub open spec fn has_desk_id(ds: Seq<Desk>, id: Seq<char>) -> bool {
    exists|k: int| 0 <= k < ds.len() && (#[trigger] ds[k]).id@ == id
}

/// How many desks of `ds` are named `name`.
pub open spec fn count_named(ds: Seq<Desk>, name: Seq<char>) -> nat
    decreases ds.len(),
{
    if ds.len() == 0 {
        0
    } else {
        count_named(ds.drop_last(), name) + if ds.last().name@ == name {
            1nat
        } else {
            0nat
        }
    }
}

/// `e` reports that no desk answers to `key`.
pub open spec fn unknown_desk(e: Error, key: Seq<char>) -> bool {
    match e {
        Error::UnknownDesk { desk } => desk@ == key,
        _ => false,
    }
}

/// `e` reports that several desks answer to `key`.
pub open spec fn ambiguous_desk(e: Error, key: Seq<char>) -> bool {
    match e {
        Error::AmbiguousDesk { desk } => desk@ == key,
        _ => false,
    }
}

impl<'a> DeskSet<'a> {
    /// The desk records, in order.
    pub closed spec fn records(&self) -> Seq<Desk> {
        self.desks@
    }

    /// Whether `agent_id` is listed on the desk whose id is `desk_id`.
    pub open spec fn lists_member(&self, desk_id: Seq<char>, agent_id: Seq<char>) -> bool {
        exists|k: int|
            first_desk_with_id(self.records(), desk_id, k) && exists|m: int|
                0 <= m < self.records()[k].members@.len() && (
                #[trigger] self.records()[k].members@[m])@ == agent_id
    }

    /// Whether `agent_id` is present in the conversation on `desk_id`:
    /// everyone is present in General.
    pub open spec fn present_on(&self, desk_id: Seq<char>, agent_id: Seq<char>) -> bool {
        desk_id == general_desk_id() || self.lists_member(desk_id, agent_id)
    }

    /// No desk id is blank or repeated.
    pub open spec fn well_formed(&self) -> bool {
        forall|i: int| 0 <= i < self.records().len() ==> !#[trigger] desk_fault(self.records(), i)
    }

    /// Borrow the desk records.
    pub fn new(desks: &'a [Desk]) -> (r: Self)
        ensures
            r.records() == desks@,
    {
        DeskSet { desks }
    }

    /// `e` is the error for this snapshot's first blank or repeated desk id.
    pub open spec fn reports(&self, e: Error) -> bool {
        exists|i: int|
                0 <= i < self.records().len() && #[trigger] desk_fault(self.records(), i) && (
                forall|j: int| 0 <= j < i ==> !#[trigger] desk_fault(self.records(), j)) && if is_blank(
                    self.records()[i].id@,
                ) {
                    e == Error::EmptyDeskId
                } else {
                    e matches Error::DuplicateDeskId { desk_id } && desk_id@ == self.records()[i].id@
                }
    }

    /// Validate that desk ids are present and unique.
    ///
    /// The first blank or repeated id is the error.
    pub fn validate(&self) -> (r: Result<(), Error>)
        ensures
            r is Ok <==> self.well_formed(),
            r matches Err(e) ==> self.reports(e),
    {
        let ds = self.desks;
        let mut i: usize = 0;
        while i < ds.len()
            invariant
                ds@ == self.records(),
                i <= ds@.len(),
                forall|j: int| 0 <= j < i ==> !#[trigger] desk_fault(ds@, j),
            decreases ds.len() - i,
        {
            let id = ds[i].id.as_str();
            if str_is_blank(id) {
                assert(desk_fault(ds@, i as int));
                return Err(Error::EmptyDeskId);
            }
            let mut j: usize = 0;
            while j < i
                invariant
                    ds@ == self.records(),
                    i < ds@.len(),
                    id@ == ds@[i as int].id@,
                    !is_blank(ds@[i as int].id@),
                    forall|k: int| 0 <= k < i ==> !#[trigger] desk_fault(ds@, k),
                    j <= i,
                    forall|k: int| 0 <= k < j ==> ds@[k].id@ != ds@[i as int].id@,
                decreases i - j,
            {
                if str_eq(ds[j].id.as_str(), id) {
                    assert(desk_fault(ds@, i as int));
                    return Err(Error::DuplicateDeskId { desk_id: ds[i].id.clone() });
                }
                j = j + 1;
            }
            i = i + 1;
        }
        Ok(())
    }

    /// The desk whose id is exactly `desk_id`, or `None`.
    pub fn desk(&self, desk_id: &str) -> (r: Option<&'a Desk>)
        ensures
            r is Some <==> has_desk_id(self.records(), desk_id@),
            r matches Some(d) ==> exists|k: int|
                first_desk_with_id(self.records(), desk_id@, k) && *d == self.records()[k],
    {
        let ds = self.desks;
        let mut i: usize = 0;
        while i < ds.len()
            invariant
                ds@ == self.records(),
                i <= ds@.len(),
                forall|j: int| 0 <= j < i ==> (#[trigger] ds@[j]).id@ != desk_id@,
            decreases ds.len() - i,
        {
            if str_eq(ds[i].id.as_str(), desk_id) {
                assert(first_desk_with_id(ds@, desk_id@, i as int));
                return Some(&ds[i]);
            }
            i = i + 1;
        }
        None
    }

    /// The member ids of the desk whose id is exactly `desk_id`, in desk
    /// order.
    pub fn members(&self, desk_id: &str) -> (r: Result<&'a Vec<String>, Error>)
        ensures
            r is Ok <==> has_desk_id(self.records(), desk_id@),
            r matches Ok(ms) ==> exists|k: int|
                first_desk_with_id(self.records(), desk_id@, k) && *ms == self.records()[k].members,
            r matches Err(e) ==> unknown_desk(e, desk_id@),
    {
        match self.desk(desk_id) {
            Some(d) => Ok(&d.members),
            None => Err(Error::UnknownDesk { desk: desk_id.to_string() }),
        }
    }

    /// Resolve a desk reference to its canonical id: an exact id first, then
    /// a display name that exactly one desk carries.
    pub fn resolve_id(&self, key: &str) -> (r: Result<&'a String, Error>)
        ensures
            has_desk_id(self.records(), key@) ==> (r matches Ok(id) && id@ == key@),
            !has_desk_id(self.records(), key@) && count_named(self.records(), key@) == 1 ==> (
            r matches Ok(id) && exists|k: int|
                0 <= k < self.records().len() && self.records()[k].name@ == key@ && *id
                    == self.records()[k].id),
            !has_desk_id(self.records(), key@) && count_named(self.records(), key@) == 0 ==> (
            r matches Err(e) && unknown_desk(e, key@)),
            !has_desk_id(self.records(), key@) && count_named(self.records(), key@) > 1 ==> (
            r matches Err(e) && ambiguous_desk(e, key@)),
    {
        if let Some(d) = self.desk(key) {
            return Ok(&d.id);
        }
        let ds = self.desks;
        let mut found: Option<usize> = None;
        let mut count: usize = 0;
        let mut i: usize = 0;
        while i < ds.len()
            invariant
                ds@ == self.records(),
                i <= ds@.len(),
                count == count_named(ds@.take(i as int), key@),
                count <= i,
                found matches Some(k) ==> k < i && ds@[k as int].name@ == key@,
                count > 0 <==> found is Some,
            decreases ds.len() - i,
        {
            assert(ds@.take(i + 1).drop_last() =~= ds@.take(i as int));
            if str_eq(ds[i].name.as_str(), key) {
                found = Some(i);
                count = count + 1;
            }
            i = i + 1;
        }
        assert(ds@.take(i as int) =~= ds@);
        if count > 1 {
            Err(Error::AmbiguousDesk { desk: key.to_string() })
        } else {
            match found {
                Some(k) => Ok(&ds[k].id),
                None => Err(Error::UnknownDesk { desk: key.to_string() }),
            }
        }
    }
}

} // verus!
