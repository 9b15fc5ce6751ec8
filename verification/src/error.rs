//! Typed failures of the structural checks every decision starts with.

use vstd::prelude::*;

verus! {

/// A structural fault in a snapshot the caller supplied.
///
/// A decision that refuses for a reason of its own returns that reason in its
/// result; this type is for input that is malformed.
#[derive(Clone, Debug, Eq, PartialEq)]
pub enum Error {
    /// A roster member id is blank.
    EmptyRosterMemberId,
    /// Two roster members claim the same id.
    DuplicateRosterMemberId {
        /// The repeated id.
        member_id: String,
    },
    /// A person id is blank.
    EmptyPersonId,
    /// Two people claim the same id.
    DuplicatePersonId {
        /// The repeated id.
        person_id: String,
    },
    /// A desk id is blank.
    EmptyDeskId,
    /// Two desks claim the same id.
    DuplicateDeskId {
        /// The repeated id.
        desk_id: String,
    },
    /// No desk has this id, and none has it as its name.
    UnknownDesk {
        /// The id or name that was looked up.
        desk: String,
    },
    /// No desk has this id, and more than one has it as its name.
    AmbiguousDesk {
        /// The name that was looked up.
        desk: String,
    },
}

} // verus!
