//! Pure authorization of one bounded private aside inside a desk.
//!
//! An aside is a run of rows addressed to fewer readers than the conversation
//! holds. This module decides whether one may be opened and resolves exactly
//! who it is addressed to; it stores nothing.
//!
//! A redaction is a row, not an absence: a reader outside the audience still
//! sees that the exchange happened. And an aside carries information, never
//! support. Both rules are enforced by the readers of the rows, not here.

use vstd::prelude::*;

use crate::desk::{first_desk_with_id, is_general_desk, DeskSet};
use crate::dispatch::DispatchConversation;
use crate::error::Error;
use crate::mention::{Mention, MentionTarget};
use crate::roster::Roster;
use crate::text::str_eq;

verus! {

broadcast use vstd::string::group_string_axioms;

/// Who a stored row is addressed to, when that is narrower than its
/// conversation.
///
/// [`Audience::Desk`] is what a host writes when it means nothing special.
/// [`Audience::Aside`] restricts a row to its author plus the named agent ids,
/// and to every person, who reads it in full as audit access. An audience is
/// fixed when the row is appended.
#[derive(Clone, Debug, Eq, PartialEq, Hash)]
pub enum Audience {
    /// Every reader of the conversation.
    Desk,
    /// The author plus these agent ids, and nobody else.
    Aside {
        /// Addressed agent ids, in the order they were written, without the
        /// author and without repeats.
        members: Vec<String>,
    },
}

impl Default for Audience {
    fn default() -> (a: Self)
        ensures
            a == Audience::Desk,
    {
        Audience::Desk
    }
}

/// Who a projection is being assembled for.
#[derive(Clone, Debug, Eq, PartialEq, Hash)]
pub enum Viewer {
    /// The local operator, reading everything.
    Operator,
    /// A human participant, reading everything: audit access, not membership.
    Person {
        /// The exact person id.
        id: String,
    },
    /// An agent, reading a row only when its audience admits it.
    Agent {
        /// The exact agent id.
        id: String,
    },
}

/// The texts of a list of strings.
pub open spec fn ids_of(v: Seq<String>) -> Seq<Seq<char>> {
    v.map_values(|s: String| s@)
}

/// Whether `viewer` may read a row with `audience` written by `author`.
pub open spec fn admitted(audience: Audience, viewer: Viewer, author: Option<Seq<char>>) -> bool {
    match audience {
        Audience::Desk => true,
        Audience::Aside { members } => match viewer {
            Viewer::Operator | Viewer::Person { .. } => true,
            Viewer::Agent { id } => author == Some(id@) || ids_of(members@).contains(id@),
        },
    }
}

/// Whether one of `v` is `id`.
fn holds_id(v: &Vec<String>, id: &str) -> (b: bool)
    ensures
        b == ids_of(v@).contains(id@),
{
    let mut k: usize = 0;
    while k < v.len()
        invariant
            k <= v@.len(),
            forall|j: int| 0 <= j < k ==> (#[trigger] v@[j])@ != id@,
        decreases v.len() - k,
    {
        if str_eq(v[k].as_str(), id) {
            assert(ids_of(v@)[k as int] == id@);
            return true;
        }
        k = k + 1;
    }
    assert forall|j: int| 0 <= j < ids_of(v@).len() implies ids_of(v@)[j] != id@ by {
        assert(ids_of(v@)[j] == v@[j]@);
    }
    false
}

impl Audience {
    /// Whether this row is visible to everyone who reads the conversation.
    pub fn is_desk(&self) -> (b: bool)
        ensures
            b == (*self is Desk),
    {
        match self {
            Audience::Desk => true,
            Audience::Aside { .. } => false,
        }
    }

    /// The addressed agent ids, or an empty slice for a desk-visible row.
    pub fn members(&self) -> (r: &[String])
        ensures
            r@ == match *self {
                Audience::Desk => Seq::<String>::empty(),
                Audience::Aside { members } => members@,
            },
    {
        match self {
            Audience::Desk => &[],
            Audience::Aside { members } => members.as_slice(),
        }
    }

    /// Whether `viewer` may read this row's content.
    ///
    /// `author_id` is the row author's agent id, or `None` when a person, the
    /// operator, or a system source wrote it. An author is always admitted to
    /// its own row, and a person or the operator to everything: privacy here
    /// is between agents, never a security boundary.
    pub fn admits(&self, viewer: &Viewer, author_id: Option<&str>) -> (b: bool)
        ensures
            b == admitted(
                *self,
                *viewer,
                match author_id {
                    Some(a) => Some(a@),
                    None => None,
                },
            ),
    {
        match self {
            Audience::Desk => true,
            Audience::Aside { members } => match viewer {
                Viewer::Operator => true,
                Viewer::Person { .. } => true,
                Viewer::Agent { id } => {
                    let own = match author_id {
                        Some(a) => str_eq(a, id.as_str()),
                        None => false,
                    };
                    own || holds_id(members, id.as_str())
                },
            },
        }
    }
}

impl Viewer {
    /// The agent id this viewer reads as, or `None` for a person or operator.
    pub fn agent_id(&self) -> (r: Option<&str>)
        ensures
            match *self {
                Viewer::Agent { id } => r matches Some(a) && a@ == id@,
                _ => r is None,
            },
    {
        match self {
            Viewer::Agent { id } => Some(id.as_str()),
            Viewer::Operator => None,
            Viewer::Person { .. } => None,
        }
    }

    /// Whether this viewer reads every row regardless of audience.
    pub fn reads_everything(&self) -> (b: bool)
        ensures
            b == !(*self is Agent),
    {
        match self {
            Viewer::Agent { .. } => false,
            Viewer::Operator => true,
            Viewer::Person { .. } => true,
        }
    }
}

/// Explicit host policy for private asides.
///
/// [`AsidePolicy::default`] permits nothing, so a host that does not opt in gets no
/// asides and every row it writes stays [`Audience::Desk`].
#[derive(Clone, Copy, Debug, Eq, PartialEq)]
pub struct AsidePolicy {
    /// Whether an aside may be opened at all.
    pub enabled: bool,
    /// Largest addressed audience, excluding the author.
    pub max_members: usize,
    /// How many rows one aside may carry before it must settle.
    pub max_messages: usize,
    /// Whether an aside must deposit one desk-visible message before its
    /// members may open another.
    pub must_surface: bool,
    /// Whether an aside must be a thread rather than a run of channel rows.
    pub require_thread: bool,
}

impl Default for AsidePolicy {
    /// Asides fully disabled: the conservative default a host must opt out of.
    fn default() -> (p: Self)
        ensures
            !p.enabled,
            p.max_members == 0,
            p.max_messages == 0,
            !p.must_surface,
            !p.require_thread,
    {
        AsidePolicy {
            enabled: false,
            max_members: 0,
            max_messages: 0,
            must_surface: false,
            require_thread: false,
        }
    }
}

/// Inputs captured from one authored message that asks for an aside.
#[derive(Clone, Debug, Eq, PartialEq)]
pub struct AsideInput {
    /// Conversation the message is being written on.
    pub conversation: DispatchConversation,
    /// Exact active agent id asking for the aside.
    pub author_id: String,
    /// Revalidated resolved mentions naming the addressed peers.
    pub mentions: Vec<Mention>,
    /// Rows this aside has already spent, folded by the caller.
    pub spent: usize,
    /// Whether a prior aside among the same members has not yet surfaced.
    pub unsettled: bool,
}

/// Why no aside was authorized.
#[derive(Clone, Copy, Debug, Eq, PartialEq)]
pub enum NoAsideReason {
    /// Host policy explicitly disabled asides.
    Disabled,
    /// The asking author is not an active agent.
    SourceInactive,
    /// The asking author is not an effective member of this desk.
    AuthorNotOnDesk,
    /// No nonquiet direct agent mention addressed anybody.
    NoAudience,
    /// The addressed audience named only the author.
    SelfOnly,
    /// The addressed audience is larger than the policy permits.
    AudienceTooLarge,
    /// An addressed agent is not an active roster member.
    TargetInactive,
    /// An addressed agent is not an effective member of this desk.
    TargetNotOnDesk,
    /// Policy requires an aside to be a thread, and this is the desk channel.
    ThreadRequired,
    /// This aside has spent its whole message budget.
    BudgetSpent,
    /// A prior aside among these members has not surfaced yet.
    UnsettledAside,
}

/// Pure result of considering one request for an aside.
#[derive(Clone, Debug, Eq, PartialEq)]
pub enum AsideDecision {
    /// No aside is authorized, and the row stays desk-visible.
    Refused {
        /// Deterministic reason for refusing.
        reason: NoAsideReason,
    },
    /// The audience to stamp on this row.
    One {
        /// The resolved audience, always [`Audience::Aside`].
        audience: Audience,
    },
}

// ---------------------------------------------------------------------------
// Reading order: mentions sorted by offset, ties kept in input order.
// ---------------------------------------------------------------------------

/// Insert index `i` into the reading-ordered indices `s`, after every index
/// whose mention does not start later.
pub open spec fn insert_by_offset(ms: Seq<Mention>, s: Seq<int>, i: int) -> Seq<int>
    decreases s.len(),
{
    if s.len() == 0 || ms[s.last()].offset <= ms[i].offset {
        s.push(i)
    } else {
        insert_by_offset(ms, s.drop_last(), i).push(s.last())
    }
}

/// The first `n` mentions' indices in reading order.
pub open spec fn reading_order_upto(ms: Seq<Mention>, n: int) -> Seq<int>
    decreases n,
{
    if n <= 0 {
        seq![]
    } else {
        insert_by_offset(ms, reading_order_upto(ms, n - 1), n - 1)
    }
}

/// Every mention's index, in reading order: ascending offset, and input order
/// among mentions at one offset.
pub open spec fn reading_order(ms: Seq<Mention>) -> Seq<int> {
    reading_order_upto(ms, ms.len() as int)
}

proof fn lemma_insert_at(ms: Seq<Mention>, s: Seq<int>, i: int, p: int)
    requires
        0 <= p <= s.len(),
        p == 0 || ms[s[p - 1]].offset <= ms[i].offset,
        forall|q: int| p <= q < s.len() ==> ms[#[trigger] s[q]].offset > ms[i].offset,
    ensures
        insert_by_offset(ms, s, i) == s.take(p).push(i) + s.skip(p),
    decreases s.len(),
{
    if s.len() == 0 || ms[s.last()].offset <= ms[i].offset {
        if s.len() > 0 {
            assert(p == s.len());
        }
        assert(s.take(p).push(i) + s.skip(p) =~= s.push(i));
    } else {
        let t = s.drop_last();
        assert(p < s.len());
        lemma_insert_at(ms, t, i, p);
        assert(t.take(p).push(i) + t.skip(p) + seq![s.last()] =~= s.take(p).push(i) + s.skip(p));
    }
}

proof fn lemma_insert_members(ms: Seq<Mention>, s: Seq<int>, i: int)
    ensures
        insert_by_offset(ms, s, i).len() == s.len() + 1,
        forall|k: int|
            0 <= k < s.len() + 1 ==> #[trigger] insert_by_offset(ms, s, i)[k] == i || s.contains(
                insert_by_offset(ms, s, i)[k],
            ),
    decreases s.len(),
{
    if !(s.len() == 0 || ms[s.last()].offset <= ms[i].offset) {
        let t = s.drop_last();
        lemma_insert_members(ms, t, i);
        let r = insert_by_offset(ms, s, i);
        assert forall|k: int| 0 <= k < s.len() + 1 implies #[trigger] r[k] == i || s.contains(
            r[k],
        ) by {
            if k < s.len() {
                assert(r[k] == insert_by_offset(ms, t, i)[k]);
                if r[k] != i {
                    let w = choose|w: int| 0 <= w < t.len() && t[w] == r[k];
                    assert(s[w] == t[w]);
                }
            } else {
                assert(s[s.len() - 1] == r[k]);
            }
        }
    } else {
        let r = insert_by_offset(ms, s, i);
        assert forall|k: int| 0 <= k < s.len() + 1 implies #[trigger] r[k] == i || s.contains(
            r[k],
        ) by {
            if k < s.len() {
                assert(s[k] == r[k]);
            }
        }
    }
}

proof fn lemma_reading_order_indices(ms: Seq<Mention>, n: int)
    requires
        0 <= n <= ms.len(),
    ensures
        reading_order_upto(ms, n).len() == n,
        forall|k: int|
            0 <= k < n ==> 0 <= #[trigger] reading_order_upto(ms, n)[k] < n,
    decreases n,
{
    if n > 0 {
        let s = reading_order_upto(ms, n - 1);
        lemma_reading_order_indices(ms, n - 1);
        lemma_insert_members(ms, s, n - 1);
        let r = reading_order_upto(ms, n);
        assert forall|k: int| 0 <= k < n implies 0 <= #[trigger] r[k] < n by {
            if r[k] != n - 1 {
                let w = choose|w: int| 0 <= w < s.len() && s[w] == r[k];
            }
        }
    }
}

/// The mentions' indices in reading order.
fn order_by_offset(mentions: &Vec<Mention>) -> (order: Vec<usize>)
    ensures
        order@.len() == mentions@.len(),
        forall|k: int| 0 <= k < order@.len() ==> order@[k] as int == reading_order(mentions@)[k],
        forall|k: int| 0 <= k < order@.len() ==> #[trigger] order@[k] < mentions@.len(),
{
    let ghost ms = mentions@;
    let mut order: Vec<usize> = Vec::new();
    let mut i: usize = 0;
    while i < mentions.len()
        invariant
            ms == mentions@,
            i <= ms.len(),
            order@.len() == i,
            forall|k: int| 0 <= k < i ==> order@[k] as int == reading_order_upto(ms, i as int)[k],
            forall|k: int| 0 <= k < i ==> #[trigger] order@[k] < i,
        decreases mentions.len() - i,
    {
        let ghost s = reading_order_upto(ms, i as int);
        let offset = mentions[i].offset;
        let mut p = order.len();
        while p > 0 && mentions[order[p - 1]].offset > offset
            invariant
                ms == mentions@,
                i < ms.len(),
                offset == ms[i as int].offset,
                order@.len() == i,
                p <= i,
                forall|k: int| 0 <= k < i ==> order@[k] as int == s[k],
                forall|k: int| 0 <= k < i ==> #[trigger] order@[k] < i,
                forall|q: int| p <= q < i ==> ms[#[trigger] s[q]].offset > offset,
            decreases p,
        {
            p = p - 1;
        }
        proof {
            lemma_reading_order_indices(ms, i as int);
            assert(s.len() == i);
            if p > 0 {
                assert(order@[p - 1] as int == s[p - 1]);
            }
            lemma_insert_at(ms, s, i as int, p as int);
        }
        order.insert(p, i);
        proof {
            let r = reading_order_upto(ms, i + 1);
            assert(r == s.take(p as int).push(i as int) + s.skip(p as int));
            assert forall|k: int| 0 <= k < i + 1 implies order@[k] as int == r[k] by {
                if k < p {
                    assert(r[k] == s[k]);
                } else if k > p {
                    assert(r[k] == s[k - 1]);
                }
            }
        }
        i = i + 1;
    }
    order
}

// ---------------------------------------------------------------------------
// The decision.
// ---------------------------------------------------------------------------

/// The fold state after some mentions: `Ok((named, members))`, or the reason
/// the fold stopped.
pub type AsideScan = Result<(bool, Seq<Seq<char>>), NoAsideReason>;

/// One mention's effect on the fold.
pub open spec fn scan_step(
    state: AsideScan,
    m: Mention,
    author: Seq<char>,
    desk: Seq<char>,
    roster: Roster,
    desks: DeskSet,
) -> AsideScan {
    match state {
        Err(reason) => Err(reason),
        Ok((named, members)) => if m.quiet {
            state
        } else {
            match m.target {
                MentionTarget::Agent { id } => if id@ == author || members.contains(id@) {
                    Ok((true, members))
                } else if !roster.is_active(id@) {
                    Err(NoAsideReason::TargetInactive)
                } else if !desks.present_on(desk, id@) {
                    Err(NoAsideReason::TargetNotOnDesk)
                } else {
                    Ok((true, members.push(id@)))
                },
                _ => state,
            }
        },
    }
}

/// The fold over the first `k` mentions in reading order.
pub open spec fn scan_upto(
    ms: Seq<Mention>,
    order: Seq<int>,
    k: int,
    author: Seq<char>,
    desk: Seq<char>,
    roster: Roster,
    desks: DeskSet,
) -> AsideScan
    decreases k,
{
    if k <= 0 {
        Ok((false, seq![]))
    } else {
        scan_step(
            scan_upto(ms, order, k - 1, author, desk, roster, desks),
            ms[order[k - 1]],
            author,
            desk,
            roster,
            desks,
        )
    }
}

/// What an aside request is answered, once the policy is enabled and both
/// snapshots are well formed: the addressed ids, or the reason for refusing.
pub open spec fn aside_outcome(
    policy: AsidePolicy,
    input: AsideInput,
    roster: Roster,
    desks: DeskSet,
) -> Result<Seq<Seq<char>>, NoAsideReason> {
    let author = input.author_id@;
    let desk = input.conversation.desk_id@;
    let ms = input.mentions@;
    if !roster.is_active(author) {
        Err(NoAsideReason::SourceInactive)
    } else if !desks.present_on(desk, author) {
        Err(NoAsideReason::AuthorNotOnDesk)
    } else if policy.require_thread && input.conversation.thread_root is None {
        Err(NoAsideReason::ThreadRequired)
    } else if input.spent >= policy.max_messages {
        Err(NoAsideReason::BudgetSpent)
    } else if policy.must_surface && input.unsettled {
        Err(NoAsideReason::UnsettledAside)
    } else {
        match scan_upto(ms, reading_order(ms), ms.len() as int, author, desk, roster, desks) {
            Err(reason) => Err(reason),
            Ok((named, members)) => if members.len() == 0 {
                Err(
                    if named {
                        NoAsideReason::SelfOnly
                    } else {
                        NoAsideReason::NoAudience
                    },
                )
            } else if members.len() > policy.max_members {
                Err(NoAsideReason::AudienceTooLarge)
            } else {
                Ok(members)
            },
        }
    }
}

/// `decision` carries `outcome`.
pub open spec fn decides(decision: AsideDecision, outcome: Result<Seq<Seq<char>>, NoAsideReason>) -> bool {
    match outcome {
        Err(reason) => decision == AsideDecision::Refused { reason },
        Ok(members) => match decision {
            AsideDecision::One { audience: Audience::Aside { members: m } } => ids_of(m@) == members,
            _ => false,
        },
    }
}

/// `m` is a nonquiet mention of agent `id`.
pub open spec fn names_agent(m: Mention, id: Seq<char>) -> bool {
    !m.quiet && match m.target {
        MentionTarget::Agent { id: t } => t@ == id,
        _ => false,
    }
}

/// Agent `id` was addressed by a nonquiet agent mention of `ms`.
pub open spec fn addressed(ms: Seq<Mention>, id: Seq<char>) -> bool {
    exists|k: int| 0 <= k < ms.len() && names_agent(#[trigger] ms[k], id)
}

proof fn lemma_scan_stops(
    ms: Seq<Mention>,
    order: Seq<int>,
    j: int,
    n: int,
    author: Seq<char>,
    desk: Seq<char>,
    roster: Roster,
    desks: DeskSet,
)
    requires
        0 <= j <= n,
        scan_upto(ms, order, j, author, desk, roster, desks) is Err,
    ensures
        scan_upto(ms, order, n, author, desk, roster, desks) == scan_upto(
            ms,
            order,
            j,
            author,
            desk,
            roster,
            desks,
        ),
    decreases n - j,
{
    if n > j {
        lemma_scan_stops(ms, order, j, n - 1, author, desk, roster, desks);
    }
}

proof fn lemma_scan_shape(
    ms: Seq<Mention>,
    order: Seq<int>,
    k: int,
    author: Seq<char>,
    desk: Seq<char>,
    roster: Roster,
    desks: DeskSet,
)
    requires
        0 <= k <= order.len(),
        forall|j: int| 0 <= j < order.len() ==> 0 <= #[trigger] order[j] < ms.len(),
    ensures
        scan_upto(ms, order, k, author, desk, roster, desks) matches Ok((_, members)) ==> {
            &&& members.no_duplicates()
            &&& !members.contains(author)
            &&& forall|j: int|
                0 <= j < members.len() ==> roster.is_active(#[trigger] members[j])
                    && desks.present_on(desk, members[j]) && addressed(ms, members[j])
        },
    decreases k,
{
    if k > 0 {
        lemma_scan_shape(ms, order, k - 1, author, desk, roster, desks);
        let prev = scan_upto(ms, order, k - 1, author, desk, roster, desks);
        let m = ms[order[k - 1]];
        if let Ok((named, members)) = prev {
            if !m.quiet {
                if let MentionTarget::Agent { id } = m.target {
                    if !(id@ == author || members.contains(id@)) && roster.is_active(id@)
                        && desks.present_on(desk, id@) {
                        let next = members.push(id@);
                        assert forall|j: int| 0 <= j < next.len() implies roster.is_active(
                            #[trigger] next[j],
                        ) && desks.present_on(desk, next[j]) && addressed(ms, next[j]) by {
                            if j == members.len() {
                                assert(ms[order[k - 1]] == m);
                            } else {
                                assert(next[j] == members[j]);
                            }
                        }
                        assert forall|a: int, b: int|
                            0 <= a < next.len() && 0 <= b < next.len() && a != b implies next[a]
                            != next[b] by {
                            if a < members.len() && b < members.len() {
                                assert(next[a] == members[a] && next[b] == members[b]);
                            } else if a < members.len() {
                                assert(next[a] == members[a]);
                            } else {
                                assert(next[b] == members[b]);
                            }
                        }
                        assert forall|j: int| 0 <= j < next.len() implies next[j] != author by {
                            if j < members.len() {
                                assert(next[j] == members[j]);
                            }
                        }
                    }
                }
            }
        }
    }
}

/// An aside audience admits exactly its author, its members, the operator
/// and every person: a desk peer who was not addressed never reads it.
pub proof fn law_an_aside_admits_its_author_its_members_and_every_person(
    members: Vec<String>,
    viewer: Viewer,
    author: Option<Seq<char>>,
)
    ensures
        admitted(Audience::Aside { members }, viewer, author) <==> match viewer {
            Viewer::Agent { id } => author == Some(id@) || ids_of(members@).contains(id@),
            _ => true,
        },
        admitted(Audience::Desk, viewer, author),
{
}

/// Whether `agent_id` is present in the conversation on `desk_id`.
///
/// General has no membership list, so every agent is present there; the
/// check there is roster activity, which the caller makes.
fn on_desk(agent_id: &str, desk_id: &str, desks: &DeskSet) -> (b: bool)
    ensures
        b == desks.present_on(desk_id@, agent_id@),
{
    if is_general_desk(desk_id) {
        return true;
    }
    match desks.members(desk_id) {
        Ok(members) => {
            let r = holds_id(members, agent_id);
            proof {
                let ds = desks.records();
                let k0 = choose|k: int|
                    first_desk_with_id(ds, desk_id@, k) && *members == ds[k].members;
                if r {
                    let w = choose|w: int|
                        0 <= w < ids_of(members@).len() && ids_of(members@)[w] == agent_id@;
                    assert(ds[k0].members@[w]@ == agent_id@);
                } else {
                    assert forall|k: int| #[trigger] first_desk_with_id(ds, desk_id@, k) implies k
                        == k0 by {
                        if k < k0 {
                            assert(ds[k].id@ != desk_id@);
                        } else if k > k0 {
                            assert(ds[k0].id@ != desk_id@);
                        }
                    }
                    assert forall|m: int| 0 <= m < ds[k0].members@.len() implies (
                    #[trigger] ds[k0].members@[m])@ != agent_id@ by {
                        assert(ids_of(members@)[m] == members@[m]@);
                    }
                }
            }
            r
        },
        Err(_) => false,
    }
}

/// Decide whether one authored message may address fewer readers than its
/// desk.
///
/// Evaluation is fail-closed and ordered: each rung is checked before the
/// next, and the first addressed id that cannot be resolved stops the
/// decision rather than being skipped. Addressed ids are read in reading
/// order, deduplicated on first appearance, with the author removed.
///
/// Returns an error when the roster or desk snapshot is malformed.
pub fn aside(policy: AsidePolicy, input: &AsideInput, roster: &Roster, desks: &DeskSet) -> (r:
    Result<AsideDecision, Error>)
    ensures
        !policy.enabled ==> r == Ok::<AsideDecision, Error>(
            AsideDecision::Refused { reason: NoAsideReason::Disabled },
        ),
        policy.enabled ==> (r is Err <==> !roster.well_formed() || !desks.well_formed()),
        policy.enabled && !roster.well_formed() ==> (r matches Err(e) && roster.reports(e)),
        policy.enabled && roster.well_formed() && !desks.well_formed() ==> (r matches Err(e)
            && desks.reports(e)),
        policy.enabled ==> (r matches Ok(d) ==> decides(
            d,
            aside_outcome(policy, *input, *roster, *desks),
        )),
        // An authorized audience is never empty or too large, never names its
        // author, never repeats, and names only active members of the desk
        // that the message addressed.
        r matches Ok(AsideDecision::One { audience }) ==> (audience matches Audience::Aside {
            members,
        } && {
            let ids = ids_of(members@);
            &&& 1 <= ids.len() <= policy.max_members
            &&& ids.no_duplicates()
            &&& !ids.contains(input.author_id@)
            &&& forall|j: int|
                0 <= j < ids.len() ==> roster.is_active(#[trigger] ids[j]) && desks.present_on(
                    input.conversation.desk_id@,
                    ids[j],
                ) && addressed(input.mentions@, ids[j])
        }),
{
    if !policy.enabled {
        return Ok(AsideDecision::Refused { reason: NoAsideReason::Disabled });
    }
    roster.validate()?;
    desks.validate()?;
    let author = input.author_id.as_str();
    let desk = input.conversation.desk_id.as_str();
    if roster.active_member(author).is_none() {
        return Ok(AsideDecision::Refused { reason: NoAsideReason::SourceInactive });
    }
    if !on_desk(author, desk, desks) {
        return Ok(AsideDecision::Refused { reason: NoAsideReason::AuthorNotOnDesk });
    }
    if policy.require_thread && input.conversation.thread_root.is_none() {
        return Ok(AsideDecision::Refused { reason: NoAsideReason::ThreadRequired });
    }
    if input.spent >= policy.max_messages {
        return Ok(AsideDecision::Refused { reason: NoAsideReason::BudgetSpent });
    }
    if policy.must_surface && input.unsettled {
        return Ok(AsideDecision::Refused { reason: NoAsideReason::UnsettledAside });
    }

    let ms = &input.mentions;
    let order = order_by_offset(ms);
    let ghost sorted = reading_order(ms@);
    let ghost auth = author@;
    let ghost dk = desk@;
    let mut named = false;
    let mut members: Vec<String> = Vec::new();
    assert(ids_of(members@) =~= Seq::<Seq<char>>::empty());
    let mut k: usize = 0;
    while k < order.len()
        invariant
            policy.enabled,
            roster.well_formed(),
            desks.well_formed(),
            roster.is_active(auth),
            desks.present_on(dk, auth),
            !(policy.require_thread && input.conversation.thread_root is None),
            input.spent < policy.max_messages,
            !(policy.must_surface && input.unsettled),
            auth == input.author_id@,
            dk == input.conversation.desk_id@,
            ms@ == input.mentions@,
            order@.len() == ms@.len(),
            forall|j: int| 0 <= j < order@.len() ==> order@[j] as int == sorted[j],
            forall|j: int| 0 <= j < order@.len() ==> #[trigger] order@[j] < ms@.len(),
            sorted == reading_order(ms@),
            auth == author@,
            dk == desk@,
            k <= order@.len(),
            scan_upto(ms@, sorted, k as int, auth, dk, *roster, *desks) == Ok::<
                (bool, Seq<Seq<char>>),
                NoAsideReason,
            >((named, ids_of(members@))),
        decreases order.len() - k,
    {
        let m = &ms[order[k]];
        let ghost prev = ids_of(members@);
        assert(ms@[sorted[k as int]] == *m);
        if !m.quiet {
            if let MentionTarget::Agent { id } = &m.target {
                named = true;
                let id = id.as_str();
                if !str_eq(id, author) && !holds_id(&members, id) {
                    if roster.active_member(id).is_none() {
                        proof {
                            lemma_scan_stops(ms@, sorted, k + 1, ms@.len() as int, auth, dk, *roster, *desks);
                        }
                        return Ok(AsideDecision::Refused { reason: NoAsideReason::TargetInactive });
                    }
                    if !on_desk(id, desk, desks) {
                        proof {
                            lemma_scan_stops(ms@, sorted, k + 1, ms@.len() as int, auth, dk, *roster, *desks);
                        }
                        return Ok(AsideDecision::Refused { reason: NoAsideReason::TargetNotOnDesk });
                    }
                    members.push(id.to_string());
                    assert(ids_of(members@) =~= prev.push(id@));
                }
            }
        }
        k = k + 1;
    }
    proof {
        lemma_reading_order_indices(ms@, ms@.len() as int);
        lemma_scan_shape(ms@, sorted, ms@.len() as int, auth, dk, *roster, *desks);
    }
    if members.len() == 0 {
        return Ok(
            AsideDecision::Refused {
                reason: if named {
                    NoAsideReason::SelfOnly
                } else {
                    NoAsideReason::NoAudience
                },
            },
        );
    }
    if members.len() > policy.max_members {
        return Ok(AsideDecision::Refused { reason: NoAsideReason::AudienceTooLarge });
    }
    Ok(AsideDecision::One { audience: Audience::Aside { members } })
}

} // verus!
