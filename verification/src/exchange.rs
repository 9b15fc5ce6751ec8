//! Private exchange that does not take the floor.
//!
//! Between turns, a host may run an exchange round in which each eligible
//! member appends at most one private row, taking no floor and producing no
//! turn. What a round spends is model calls, not turns, so [`ExchangePolicy`]
//! is off by default and carries two finite ceilings a host can read its
//! worst case off before starting.

use vstd::prelude::*;

use crate::aside::Audience;
use crate::desk::{first_desk_with_id, has_desk_id, count_named, DeskSet, unknown_desk, ambiguous_desk};
use crate::error::Error;
use crate::roster::Roster;
use crate::text::str_eq;

verus! {

broadcast use vstd::string::group_string_axioms;

/// A position in the shared transcript.
#[derive(Clone, Copy, Debug, Eq, PartialEq, Hash)]
pub struct Sequence(pub u64);

/// Who wrote one transcript row.
#[derive(Clone, Debug, Eq, PartialEq)]
pub enum SessionAuthor {
    /// An agent, by exact id, with its display label.
    Agent {
        /// The agent id.
        id: String,
        /// The display label.
        label: String,
    },
    /// A person, by exact id, with its display label.
    Person {
        /// The person id.
        id: String,
        /// The display label.
        label: String,
    },
    /// The local operator or the host itself.
    Operator,
}

/// One row of the shared transcript.
#[derive(Clone, Debug, Eq, PartialEq)]
pub struct SessionMessage {
    /// Where the row sits in the transcript.
    pub sequence: Sequence,
    /// Who wrote it.
    pub author: SessionAuthor,
    /// What it says.
    pub content: String,
    /// Who may read it.
    pub audience: Audience,
}

/// The conversation an episode runs in.
#[derive(Clone, Debug, Eq, PartialEq)]
pub struct Conversation {
    /// Canonical desk id, or a desk name that resolves to one.
    pub desk_id: String,
    /// The desk's display name.
    pub desk_name: String,
    /// Root sequence for a thread, or `None` for the desk channel.
    pub thread_root: Option<u64>,
}

/// What an exchange round reads of an episode.
#[derive(Clone, Debug, Eq, PartialEq)]
pub struct EpisodeState {
    /// Where the episode runs.
    pub conversation: Conversation,
    /// Rows at or below this sequence belong to the conversation that led
    /// into the episode, not to the episode.
    pub watermark: Sequence,
}

impl EpisodeState {
    /// An episode opened at `watermark`.
    pub fn opened(conversation: Conversation, watermark: Sequence) -> (s: Self)
        ensures
            s.conversation == conversation,
            s.watermark == watermark,
    {
        EpisodeState { conversation, watermark }
    }
}

/// How much private exchange one episode may run off the floor.
///
/// Two independent ceilings, both finite and both readable before an episode
/// starts: at most `contact_cap` rows per member, and at most `round_cap`
/// rounds, each of which asks each member for at most one row.
#[derive(Clone, Copy, Debug, Eq, PartialEq)]
pub struct ExchangePolicy {
    /// Whether any round may open at all.
    pub enabled: bool,
    /// Private rows one member may author across the whole episode.
    pub contact_cap: u32,
    /// Rounds the episode may open at all.
    pub round_cap: u32,
}

impl Default for ExchangePolicy {
    /// Off, which reproduces an episode taken before this mechanism existed.
    fn default() -> (p: Self)
        ensures
            !p.enabled,
            p.contact_cap == 0,
            p.round_cap == 0,
    {
        ExchangePolicy { enabled: false, contact_cap: 0, round_cap: 0 }
    }
}

/// How many exchange rounds this episode has already opened.
///
/// Carried by the host, not folded from the transcript: a round in which
/// every named member declines to write leaves no row behind, so counting
/// rows would under-count exactly the rounds that cost the most per row.
#[derive(Clone, Copy, Debug, Default, Eq, PartialEq)]
pub struct ExchangeState {
    /// Rounds opened so far.
    pub rounds: u32,
}

impl ExchangeState {
    /// A fresh episode, with no round opened yet.
    pub fn opened() -> (s: Self)
        ensures
            s.rounds == 0,
    {
        ExchangeState { rounds: 0 }
    }

    /// The state after opening one more round. Saturating, so a host that
    /// runs past `u32::MAX` rounds stops counting rather than wrapping back
    /// under its own cap.
    pub fn advanced(self) -> (s: Self)
        ensures
            s.rounds == if self.rounds == u32::MAX {
                u32::MAX as int
            } else {
                self.rounds + 1
            },
    {
        ExchangeState { rounds: self.rounds.saturating_add(1) }
    }
}

/// Why no exchange round is open.
#[derive(Clone, Copy, Debug, Eq, PartialEq)]
pub enum NoExchangeReason {
    /// The host has not turned the mechanism on.
    Disabled,
    /// `round_cap` rounds have already opened.
    RoundsSpent,
    /// Every active member has spent its own `contact_cap`.
    ContactsSpent,
    /// The desk has nobody on it who could contact anybody else.
    TooFewMembers,
}

/// Whether members may exchange privately now, and which of them.
#[derive(Clone, Debug, Eq, PartialEq)]
pub enum ExchangeRound {
    /// Each of these members may append at most one private row now.
    Open {
        /// The members this round authorizes, in desk order.
        members: Vec<String>,
        /// Private rows this episode may still write, across every member.
        remaining: u64,
        /// The state to carry into the next call, having opened this round.
        next: ExchangeState,
    },
    /// No round, and why.
    Closed {
        /// What closed it.
        reason: NoExchangeReason,
    },
}

// ---------------------------------------------------------------------------
// The model.
// ---------------------------------------------------------------------------

/// Row `m` is private spend by agent `id` in the episode above `watermark`.
pub open spec fn is_spend(m: SessionMessage, watermark: u64, id: Seq<char>) -> bool {
    &&& m.sequence.0 > watermark
    &&& !(m.audience is Desk)
    &&& m.author matches SessionAuthor::Agent { id: a, .. } && a@ == id
}

/// How many rows of `t` are spend by `id`.
pub open spec fn spend_count(t: Seq<SessionMessage>, watermark: u64, id: Seq<char>) -> int
    decreases t.len(),
{
    if t.len() == 0 {
        0
    } else {
        spend_count(t.drop_last(), watermark, id) + if is_spend(t.last(), watermark, id) {
            1int
        } else {
            0
        }
    }
}

/// What `id` has spent, counted in a saturating `u32`.
pub open spec fn spent(t: Seq<SessionMessage>, watermark: u64, id: Seq<char>) -> int {
    let c = spend_count(t, watermark, id);
    if c > u32::MAX {
        u32::MAX as int
    } else {
        c
    }
}

/// The ids of `ids` that `roster` keeps active, in order.
pub open spec fn active_ids(roster: Roster, ids: Seq<String>) -> Seq<Seq<char>>
    decreases ids.len(),
{
    if ids.len() == 0 {
        seq![]
    } else if roster.is_active(ids.last()@) {
        active_ids(roster, ids.drop_last()).push(ids.last()@)
    } else {
        active_ids(roster, ids.drop_last())
    }
}

/// The members of `ms` still under `cap`, in order.
pub open spec fn eligible(ms: Seq<Seq<char>>, t: Seq<SessionMessage>, watermark: u64, cap: int) -> Seq<
    Seq<char>,
>
    decreases ms.len(),
{
    if ms.len() == 0 {
        seq![]
    } else if spent(t, watermark, ms.last()) < cap {
        eligible(ms.drop_last(), t, watermark, cap).push(ms.last())
    } else {
        eligible(ms.drop_last(), t, watermark, cap)
    }
}

/// Rows each member may still write: its own cap left, but no more than one
/// per round still open; summed over the members.
pub open spec fn rows_left(
    ms: Seq<Seq<char>>,
    t: Seq<SessionMessage>,
    watermark: u64,
    cap: int,
    rounds_left: int,
) -> int
    decreases ms.len(),
{
    if ms.len() == 0 {
        0
    } else {
        let own = if spent(t, watermark, ms.last()) < cap {
            cap - spent(t, watermark, ms.last())
        } else {
            0
        };
        rows_left(ms.drop_last(), t, watermark, cap, rounds_left) + if own < rounds_left {
            own
        } else {
            rounds_left
        }
    }
}

/// Desk `k` is the one the episode's desk reference resolves to.
pub open spec fn resolves_to(desks: DeskSet, key: Seq<char>, k: int) -> bool {
    ||| has_desk_id(desks.records(), key) && first_desk_with_id(desks.records(), key, k)
    ||| !has_desk_id(desks.records(), key) && count_named(desks.records(), key) == 1 && 0 <= k
        < desks.records().len() && desks.records()[k].name@ == key
}

/// What the round is, given the active members of the episode's desk:
/// `Ok((members, remaining))` for an open round, or why it is closed.
pub open spec fn round_outcome(
    policy: ExchangePolicy,
    opened: ExchangeState,
    t: Seq<SessionMessage>,
    watermark: u64,
    members: Seq<Seq<char>>,
) -> Result<(Seq<Seq<char>>, int), NoExchangeReason> {
    if !policy.enabled || policy.contact_cap == 0 || policy.round_cap == 0 {
        Err(NoExchangeReason::Disabled)
    } else if members.len() < 2 {
        Err(NoExchangeReason::TooFewMembers)
    } else if opened.rounds >= policy.round_cap {
        Err(NoExchangeReason::RoundsSpent)
    } else if eligible(members, t, watermark, policy.contact_cap as int).len() == 0 {
        Err(NoExchangeReason::ContactsSpent)
    } else {
        let left = rows_left(
            members,
            t,
            watermark,
            policy.contact_cap as int,
            policy.round_cap - opened.rounds,
        );
        Ok(
            (
                eligible(members, t, watermark, policy.contact_cap as int),
                if left > u64::MAX {
                    u64::MAX as int
                } else {
                    left
                },
            ),
        )
    }
}

/// `round` carries `outcome`, and hands back `opened` advanced by one.
pub open spec fn rounds_as(
    round: ExchangeRound,
    outcome: Result<(Seq<Seq<char>>, int), NoExchangeReason>,
    opened: ExchangeState,
) -> bool {
    match outcome {
        Err(reason) => round == ExchangeRound::Closed { reason },
        Ok((ms, left)) => match round {
            ExchangeRound::Open { members, remaining, next } => {
                &&& members@.map_values(|s: String| s@) == ms
                &&& remaining == left
                &&& next.rounds == if opened.rounds == u32::MAX {
                    u32::MAX as int
                } else {
                    opened.rounds + 1
                }
            },
            _ => false,
        },
    }
}

proof fn lemma_eligible_shape(ms: Seq<Seq<char>>, t: Seq<SessionMessage>, w: u64, cap: int)
    ensures
        eligible(ms, t, w, cap).len() <= ms.len(),
        forall|k: int|
            0 <= k < eligible(ms, t, w, cap).len() ==> ms.contains(
                #[trigger] eligible(ms, t, w, cap)[k],
            ) && spent(t, w, eligible(ms, t, w, cap)[k]) < cap,
    decreases ms.len(),
{
    if ms.len() > 0 {
        let p = ms.drop_last();
        lemma_eligible_shape(p, t, w, cap);
        let e = eligible(ms, t, w, cap);
        assert forall|k: int| 0 <= k < e.len() implies ms.contains(#[trigger] e[k]) && spent(
            t,
            w,
            e[k],
        ) < cap by {
            if k < eligible(p, t, w, cap).len() {
                assert(e[k] == eligible(p, t, w, cap)[k]);
                let x = choose|x: int| 0 <= x < p.len() && p[x] == e[k];
                assert(ms[x] == p[x]);
            } else {
                assert(e[k] == ms.last());
                assert(ms[ms.len() - 1] == ms.last());
            }
        }
    }
}

proof fn lemma_rows_left_bounds(
    ms: Seq<Seq<char>>,
    t: Seq<SessionMessage>,
    w: u64,
    cap: int,
    left: int,
)
    requires
        left >= 0,
    ensures
        0 <= rows_left(ms, t, w, cap, left) <= left * ms.len(),
    decreases ms.len(),
{
    if ms.len() > 0 {
        lemma_rows_left_bounds(ms.drop_last(), t, w, cap, left);
        assert(left * (ms.len() - 1) + left == left * ms.len()) by (nonlinear_arith);
    }
}

/// A row that is desk-visible, or at or below the watermark, is nobody's
/// spend: appending one to the transcript changes no member's count, and so
/// changes no round.
pub proof fn law_only_private_rows_above_the_watermark_are_spend(
    t: Seq<SessionMessage>,
    row: SessionMessage,
    watermark: u64,
    id: Seq<char>,
)
    requires
        row.audience is Desk || row.sequence.0 <= watermark,
    ensures
        spent(t.push(row), watermark, id) == spent(t, watermark, id),
{
    assert(t.push(row).drop_last() =~= t);
}

/// A private row above the watermark by `id` adds one to its count, until
/// the count saturates.
pub proof fn law_a_private_row_above_the_watermark_is_its_authors_spend(
    t: Seq<SessionMessage>,
    row: SessionMessage,
    watermark: u64,
    id: Seq<char>,
)
    requires
        is_spend(row, watermark, id),
    ensures
        spend_count(t.push(row), watermark, id) == spend_count(t, watermark, id) + 1,
{
    assert(t.push(row).drop_last() =~= t);
}

/// The whole round reads spend only through [`spent`], so a transcript that
/// differs by rows that are nobody's spend opens the same round.
pub proof fn law_rows_that_are_not_spend_open_the_same_round(
    policy: ExchangePolicy,
    opened: ExchangeState,
    t: Seq<SessionMessage>,
    row: SessionMessage,
    watermark: u64,
    members: Seq<Seq<char>>,
)
    requires
        row.audience is Desk || row.sequence.0 <= watermark,
    ensures
        round_outcome(policy, opened, t.push(row), watermark, members) == round_outcome(
            policy,
            opened,
            t,
            watermark,
            members,
        ),
{
    assert forall|id: Seq<char>| spent(t.push(row), watermark, id) == spent(t, watermark, id) by {
        law_only_private_rows_above_the_watermark_are_spend(t, row, watermark, id);
    }
    lemma_same_spend_same_fold(
        members,
        t.push(row),
        t,
        watermark,
        policy.contact_cap as int,
        policy.round_cap - opened.rounds,
    );
}

/// How many of `rounds` opened.
pub open spec fn count_open(rounds: Seq<ExchangeRound>) -> int
    decreases rounds.len(),
{
    if rounds.len() == 0 {
        0
    } else {
        count_open(rounds.drop_last()) + if rounds.last() is Open {
            1int
        } else {
            0
        }
    }
}

/// An episode run from a fresh state, carrying each open round's `next` into
/// the following call and keeping its state after a closed one, opens at
/// most `round_cap` rounds, whatever the transcripts and members were.
pub proof fn law_an_episode_opens_at_most_round_cap_rounds(
    policy: ExchangePolicy,
    states: Seq<ExchangeState>,
    rounds: Seq<ExchangeRound>,
    transcripts: Seq<Seq<SessionMessage>>,
    watermark: u64,
    members: Seq<Seq<Seq<char>>>,
)
    requires
        states.len() == rounds.len() + 1,
        transcripts.len() == rounds.len(),
        members.len() == rounds.len(),
        states[0].rounds == 0,
        forall|i: int|
            0 <= i < rounds.len() ==> rounds_as(
                #[trigger] rounds[i],
                round_outcome(policy, states[i], transcripts[i], watermark, members[i]),
                states[i],
            ),
        forall|i: int|
            0 <= i < rounds.len() ==> states[i + 1] == match #[trigger] rounds[i] {
                ExchangeRound::Open { next, .. } => next,
                ExchangeRound::Closed { .. } => states[i],
            },
    ensures
        count_open(rounds) <= policy.round_cap,
{
    lemma_rounds_carried(policy, states, rounds, transcripts, watermark, members, rounds.len() as int);
    assert(rounds.take(rounds.len() as int) =~= rounds);
}

proof fn lemma_rounds_carried(
    policy: ExchangePolicy,
    states: Seq<ExchangeState>,
    rounds: Seq<ExchangeRound>,
    transcripts: Seq<Seq<SessionMessage>>,
    watermark: u64,
    members: Seq<Seq<Seq<char>>>,
    n: int,
)
    requires
        0 <= n <= rounds.len(),
        states.len() == rounds.len() + 1,
        transcripts.len() == rounds.len(),
        members.len() == rounds.len(),
        states[0].rounds == 0,
        forall|i: int|
            0 <= i < rounds.len() ==> rounds_as(
                #[trigger] rounds[i],
                round_outcome(policy, states[i], transcripts[i], watermark, members[i]),
                states[i],
            ),
        forall|i: int|
            0 <= i < rounds.len() ==> states[i + 1] == match #[trigger] rounds[i] {
                ExchangeRound::Open { next, .. } => next,
                ExchangeRound::Closed { .. } => states[i],
            },
    ensures
        states[n].rounds == count_open(rounds.take(n)),
        states[n].rounds <= policy.round_cap,
    decreases n,
{
    if n > 0 {
        let i = n - 1;
        lemma_rounds_carried(policy, states, rounds, transcripts, watermark, members, i);
        assert(rounds.take(n).drop_last() =~= rounds.take(i));
        assert(rounds.take(n).last() == rounds[i]);
        let outcome = round_outcome(policy, states[i], transcripts[i], watermark, members[i]);
        assert(rounds_as(rounds[i], outcome, states[i]));
        assert(states[i + 1] == match rounds[i] {
            ExchangeRound::Open { next, .. } => next,
            ExchangeRound::Closed { .. } => states[i],
        });
    } else {
        assert(rounds.take(0) =~= Seq::<ExchangeRound>::empty());
    }
}

proof fn lemma_same_spend_same_fold(
    ms: Seq<Seq<char>>,
    a: Seq<SessionMessage>,
    b: Seq<SessionMessage>,
    w: u64,
    cap: int,
    left: int,
)
    requires
        forall|id: Seq<char>| spent(a, w, id) == spent(b, w, id),
    ensures
        eligible(ms, a, w, cap) == eligible(ms, b, w, cap),
        rows_left(ms, a, w, cap, left) == rows_left(ms, b, w, cap, left),
    decreases ms.len(),
{
    if ms.len() > 0 {
        lemma_same_spend_same_fold(ms.drop_last(), a, b, w, cap, left);
        assert(spent(a, w, ms.last()) == spent(b, w, ms.last()));
    }
}

// ---------------------------------------------------------------------------
// The fold.
// ---------------------------------------------------------------------------

/// What `id` has spent: private rows above the watermark that it authored.
fn spent_by(transcript: &[SessionMessage], watermark: u64, id: &str) -> (n: u32)
    ensures
        n == spent(transcript@, watermark, id@),
{
    let mut n: u32 = 0;
    let mut i: usize = 0;
    while i < transcript.len()
        invariant
            i <= transcript@.len(),
            n == spent(transcript@.take(i as int), watermark, id@),
        decreases transcript.len() - i,
    {
        let m = &transcript[i];
        assert(transcript@.take(i + 1).drop_last() =~= transcript@.take(i as int));
        if m.sequence.0 > watermark && !m.audience.is_desk() {
            if let SessionAuthor::Agent { id: a, .. } = &m.author {
                if str_eq(a.as_str(), id) {
                    n = n.saturating_add(1);
                }
            }
        }
        i = i + 1;
    }
    assert(transcript@.take(i as int) =~= transcript@);
    n
}

/// Whether members may exchange privately now, and which of them.
///
/// A fold over what the caller already holds: the policy, the episode, the
/// rounds it has opened, the transcript and the two snapshots. What a member
/// has spent is read back out of the private rows above the watermark that it
/// authored; a desk-visible row, a row at or below the watermark, and a row
/// by anybody who is not an active member of the desk spend nothing.
///
/// Returns an error when the roster or desk snapshot is malformed, or when
/// the episode's desk reference resolves to no desk or to several.
pub fn exchange(
    policy: &ExchangePolicy,
    state: &EpisodeState,
    opened: ExchangeState,
    transcript: &[SessionMessage],
    roster: &Roster,
    desks: &DeskSet,
) -> (r: Result<ExchangeRound, Error>)
    ensures
        // A round, open or closed, is owed exactly when both snapshots are
        // well formed and the desk reference resolves to one desk.
        r is Ok <==> roster.well_formed() && desks.well_formed() && (has_desk_id(
            desks.records(),
            state.conversation.desk_id@,
        ) || count_named(desks.records(), state.conversation.desk_id@) == 1),
        !roster.well_formed() ==> (r matches Err(e) && roster.reports(e)),
        roster.well_formed() && !desks.well_formed() ==> (r matches Err(e) && desks.reports(e)),
        ({
            let key = state.conversation.desk_id@;
            roster.well_formed() && desks.well_formed() && !has_desk_id(desks.records(), key) ==> (
            count_named(desks.records(), key) == 0 ==> (r matches Err(e) && unknown_desk(e, key)))
                && (count_named(desks.records(), key) > 1 ==> (r matches Err(e) && ambiguous_desk(
                e,
                key,
            )))
        }),
        r matches Ok(round) ==> roster.well_formed() && desks.well_formed() && exists|k: int|
            #[trigger] resolves_to(*desks, state.conversation.desk_id@, k) && rounds_as(
                round,
                round_outcome(
                    *policy,
                    opened,
                    transcript@,
                    state.watermark.0,
                    active_ids(*roster, desks.records()[k].members@),
                ),
                opened,
            ),
        // An open round names at least one member, each an active member of
        // the desk still under its own cap, and never reports more rows than
        // one per member per round still open.
        r matches Ok(ExchangeRound::Open { members, remaining, .. }) ==> {
            &&& members@.len() >= 1
            &&& opened.rounds < policy.round_cap
            &&& exists|k: int|
                #[trigger] resolves_to(*desks, state.conversation.desk_id@, k) && {
                    let active = active_ids(*roster, desks.records()[k].members@);
                    &&& forall|j: int|
                        0 <= j < members@.len() ==> active.contains(#[trigger] members@[j]@)
                            && spent(transcript@, state.watermark.0, members@[j]@)
                            < policy.contact_cap
                    &&& remaining <= (policy.round_cap - opened.rounds) * active.len()
                }
        },
{
    roster.validate()?;
    desks.validate()?;
    let desk_id = desks.resolve_id(state.conversation.desk_id.as_str())?;
    let listed = desks.members(desk_id.as_str())?;
    let ghost key = state.conversation.desk_id@;
    let ghost k = desk_index(*desks, key, desk_id@);
    proof {
        lemma_desk_index(*desks, key, desk_id@);
        let k1 = choose|k1: int|
            first_desk_with_id(desks.records(), desk_id@, k1) && *listed == desks.records()[k1].members;
        lemma_first_unique(desks.records(), desk_id@, k, k1);
    }
    assert(*listed == desks.records()[k].members);

    let mut members: Vec<&String> = Vec::new();
    let mut i: usize = 0;
    while i < listed.len()
        invariant
            i <= listed@.len(),
            members@.map_values(|s: &String| s@) == active_ids(*roster, listed@.take(i as int)),
        decreases listed.len() - i,
    {
        assert(listed@.take(i + 1).drop_last() =~= listed@.take(i as int));
        let ghost before = members@;
        if roster.active_member(listed[i].as_str()).is_some() {
            members.push(&listed[i]);
            assert(members@.map_values(|s: &String| s@) =~= before.map_values(|s: &String| s@).push(
                listed@[i as int]@,
            ));
        }
        i = i + 1;
    }
    assert(listed@.take(i as int) =~= listed@);
    let ghost active = active_ids(*roster, listed@);
    assert(members@.map_values(|s: &String| s@) == active);

    if !policy.enabled || policy.contact_cap == 0 || policy.round_cap == 0 {
        return Ok(ExchangeRound::Closed { reason: NoExchangeReason::Disabled });
    }
    if members.len() < 2 {
        return Ok(ExchangeRound::Closed { reason: NoExchangeReason::TooFewMembers });
    }
    if opened.rounds >= policy.round_cap {
        return Ok(ExchangeRound::Closed { reason: NoExchangeReason::RoundsSpent });
    }
    let rounds_left = policy.round_cap - opened.rounds;
    let watermark = state.watermark.0;
    let cap = policy.contact_cap;

    let mut eligible_ids: Vec<String> = Vec::new();
    let mut remaining: u64 = 0;
    let mut j: usize = 0;
    while j < members.len()
        invariant
            j <= members@.len(),
            members@.map_values(|s: &String| s@) == active,
            cap == policy.contact_cap,
            watermark == state.watermark.0,
            rounds_left == policy.round_cap - opened.rounds,
            eligible_ids@.map_values(|s: String| s@) == eligible(
                active.take(j as int),
                transcript@,
                watermark,
                cap as int,
            ),
            remaining == ({
                let l = rows_left(
                    active.take(j as int),
                    transcript@,
                    watermark,
                    cap as int,
                    rounds_left as int,
                );
                if l > u64::MAX {
                    u64::MAX as int
                } else {
                    l
                }
            }),
        decreases members.len() - j,
    {
        let id = members[j];
        assert(active[j as int] == id@);
        assert(active.take(j + 1).drop_last() =~= active.take(j as int));
        let used = spent_by(transcript, watermark, id.as_str());
        let own: u32 = if used < cap {
            cap - used
        } else {
            0
        };
        let part: u32 = if own < rounds_left {
            own
        } else {
            rounds_left
        };
        remaining = remaining.saturating_add(part as u64);
        if used < cap {
            let ghost before = eligible_ids@;
            eligible_ids.push(id.clone());
            assert(eligible_ids@.map_values(|s: String| s@) =~= before.map_values(|s: String| s@).push(
                id@,
            ));
        }
        j = j + 1;
    }
    assert(active.take(j as int) =~= active);
    proof {
        lemma_eligible_shape(active, transcript@, watermark, cap as int);
        lemma_rows_left_bounds(active, transcript@, watermark, cap as int, rounds_left as int);
    }
    if eligible_ids.len() == 0 {
        assert(eligible(active, transcript@, watermark, cap as int).len() == 0);
        return Ok(ExchangeRound::Closed { reason: NoExchangeReason::ContactsSpent });
    }
    proof {
        let e = eligible(active, transcript@, watermark, cap as int);
        let m = eligible_ids@;
        assert forall|x: int| 0 <= x < m.len() implies active.contains(#[trigger] m[x]@)
            && spent(transcript@, watermark, m[x]@) < policy.contact_cap by {
            assert(m.map_values(|s: String| s@)[x] == m[x]@);
            assert(e[x] == m[x]@);
        }
    }
    let round = ExchangeRound::Open { members: eligible_ids, remaining, next: opened.advanced() };
    Ok(round)
}

/// The index of the desk a reference resolved to, given the id it resolved
/// to.
spec fn desk_index(desks: DeskSet, key: Seq<char>, id: Seq<char>) -> int {
    choose|k: int| first_desk_with_id(desks.records(), id, k)
}

proof fn lemma_desk_index(desks: DeskSet, key: Seq<char>, id: Seq<char>)
    requires
        desks.well_formed(),
        has_desk_id(desks.records(), id),
        id == key || (!has_desk_id(desks.records(), key) && count_named(desks.records(), key)
            == 1 && exists|k: int|
            0 <= k < desks.records().len() && desks.records()[k].name@ == key
                && desks.records()[k].id@ == id),
    ensures
        first_desk_with_id(desks.records(), id, desk_index(desks, key, id)),
        resolves_to(desks, key, desk_index(desks, key, id)),
{
    let ds = desks.records();
    let w = choose|w: int| 0 <= w < ds.len() && (#[trigger] ds[w]).id@ == id;
    lemma_first_desk_exists(ds, id, w);
    let k = desk_index(desks, key, id);
    if id != key {
        let n = choose|n: int| 0 <= n < ds.len() && ds[n].name@ == key && ds[n].id@ == id;
        // Ids are unique, so the named desk is the first with its id.
        if n != k {
            if n < k {
                assert(ds[n].id@ != id);
            } else {
                assert(!crate::desk::desk_fault(ds, n));
                assert(ds[k].id@ == ds[n].id@);
            }
        }
    }
}

proof fn lemma_first_unique(ds: Seq<crate::desk::Desk>, id: Seq<char>, a: int, b: int)
    requires
        first_desk_with_id(ds, id, a),
        first_desk_with_id(ds, id, b),
    ensures
        a == b,
{
    if a < b {
        assert(ds[a].id@ != id);
    } else if b < a {
        assert(ds[b].id@ != id);
    }
}

proof fn lemma_first_desk_exists(ds: Seq<crate::desk::Desk>, id: Seq<char>, w: int)
    requires
        0 <= w < ds.len(),
        ds[w].id@ == id,
    ensures
        exists|k: int| first_desk_with_id(ds, id, k),
    decreases w,
{
    if exists|j: int| 0 <= j < w && (#[trigger] ds[j]).id@ == id {
        let j = choose|j: int| 0 <= j < w && (#[trigger] ds[j]).id@ == id;
        lemma_first_desk_exists(ds, id, j);
    } else {
        assert(first_desk_with_id(ds, id, w));
    }
}

} // verus!
