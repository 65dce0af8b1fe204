//! The decisions of taking in an event from another server.
//!
//! An incoming PDU passes a series of gates before it is considered at all,
//! its missing auth events are fetched depth first so that each is handled
//! after the ones it depends on, the state at it is assembled from what a
//! server claims, and it is finally appended, soft failed or refused. The
//! federation requests, signature checks and state resolution are made by the
//! caller; what to do with their answers is decided here.

use crate::json_object::{JsonObject, JsonValue, TextMap};
use crate::text_order::{compare_texts, lemma_text_lt_transitive, text_lt, texts, TextOrder};
use vstd::prelude::*;

verus! {

/// A room's server ACL, as its state event holds it.
#[derive(Debug, Clone, PartialEq, Eq)]
pub struct ServerAcl {
    /// The server name patterns allowed.
    pub allow: Vec<String>,
    /// The server name patterns denied.
    pub deny: Vec<String>,
    /// Whether servers named by IP address are allowed.
    pub allow_ip_literals: bool,
}

/// Whether `ruma`'s `RoomServerAclEventContent::is_allowed` lets a server in
/// under an ACL.
pub uninterp spec fn acl_allows(allow: Seq<Seq<char>>, deny: Seq<Seq<char>>, allow_ip_literals: bool, server: Seq<char>) -> bool;

/// `ruma::events::room::server_acl::RoomServerAclEventContent::is_allowed`.
///
/// Claimed: the result is the name `acl_allows` applied to the ACL and the
/// server. A server name that `ruma` does not parse is not let in.
#[verifier::external_body]
fn acl_is_allowed(acl: &ServerAcl, server: &str) -> (r: bool)
    ensures
        r == acl_allows(texts(acl.allow@), texts(acl.deny@), acl.allow_ip_literals, server@),
{
    let content = ruma::events::room::server_acl::RoomServerAclEventContent::new(
        acl.allow_ip_literals,
        acl.allow.clone(),
        acl.deny.clone(),
    );
    match <&ruma::ServerName>::try_from(server) {
        Ok(name) => content.is_allowed(name),
        Err(_) => false,
    }
}

/// Why a server's event is refused.
#[derive(Debug, Clone, Copy, PartialEq, Eq, Structural)]
pub enum IncomingError {
    /// The room is unknown here.
    UnknownRoom,
    /// Federation of the room is disabled here.
    Disabled,
    /// The room's ACL denies the server.
    DeniedByAcl,
    /// This server does not federate with it.
    Forbidden,
}

/// Whether a room's ACL lets a server in: this server always, and any server
/// where the room has no ACL or one with an empty allow list, which would
/// lock everyone out and is ignored as broken.
pub fn acl_check(origin_is_ours: bool, acl: Option<&ServerAcl>, origin: &str) -> (r: Result<(), IncomingError>)
    ensures
        r is Ok <==> (origin_is_ours || match acl {
            None => true,
            Some(acl) => acl.allow.len() == 0
                || acl_allows(texts(acl.allow@), texts(acl.deny@), acl.allow_ip_literals, origin@),
        }),
        r matches Err(e) ==> e == IncomingError::DeniedByAcl,
{
    if origin_is_ours {
        return Ok(());
    }
    let acl = match acl {
        Some(acl) => acl,
        None => return Ok(()),
    };
    if acl.allow.len() == 0 {
        return Ok(());
    }
    if acl_is_allowed(acl, origin) {
        return Ok(());
    }
    Err(IncomingError::DeniedByAcl)
}

/// What is done with an incoming PDU before it is handled.
#[derive(Debug, Clone, Copy, PartialEq, Eq, Structural)]
pub enum Admission {
    /// It is in the timeline already; nothing to do.
    Known,
    /// It is refused.
    Refused(IncomingError),
    /// It is handled.
    Handle,
}

/// The gates an incoming PDU passes, in order: one already in the timeline is
/// not handled again; a room unknown here, a room whose federation is
/// disabled, an ACL that denies the sending server and a server this one does
/// not federate with each refuse it.
pub fn admit_incoming(in_timeline: bool, room_known: bool, room_disabled: bool, acl: Result<(), IncomingError>, forbidden: bool) -> (r: Admission)
    ensures
        r == if in_timeline {
            Admission::Known
        } else if !room_known {
            Admission::Refused(IncomingError::UnknownRoom)
        } else if room_disabled {
            Admission::Refused(IncomingError::Disabled)
        } else if acl is Err {
            Admission::Refused(acl->Err_0)
        } else if forbidden {
            Admission::Refused(IncomingError::Forbidden)
        } else {
            Admission::Handle
        },
{
    if in_timeline {
        Admission::Known
    } else if !room_known {
        Admission::Refused(IncomingError::UnknownRoom)
    } else if room_disabled {
        Admission::Refused(IncomingError::Disabled)
    } else if let Err(e) = acl {
        Admission::Refused(e)
    } else if forbidden {
        Admission::Refused(IncomingError::Forbidden)
    } else {
        Admission::Handle
    }
}

/// Whether an event is placed in the timeline: a timeline event older than
/// the room's first event here predates the room's history and is not.
pub fn predates_history(is_timeline_event: bool, origin_server_ts: u64, first_ts_in_room: u64) -> (r: bool)
    ensures
        r == (is_timeline_event && origin_server_ts < first_ts_in_room),
{
    is_timeline_event && origin_server_ts < first_ts_in_room
}

/// What becomes of an outlier once the state at it is known and it has been
/// checked against it and against the room's current state.
#[derive(Debug, Clone, Copy, PartialEq, Eq, Structural)]
pub enum Upgrade {
    /// It is in the timeline already.
    Known,
    /// It was soft failed before; it stays so.
    SoftFailedBefore,
    /// It fails the auth check against the state at it.
    Refused,
    /// It passes that, but not against the current state: it is appended
    /// soft failed, and does not change the room's state.
    SoftFail,
    /// A state event that passes: the room's state is resolved with it before
    /// it is appended.
    ResolveAndAppend,
    /// A message event that passes: it is appended.
    Append,
}

/// What becomes of an outlier.
pub fn upgrade_decision(in_timeline: bool, soft_failed_before: bool, authorized: bool, authorized_now: bool, is_state: bool) -> (r: Upgrade)
    ensures
        r == if in_timeline {
            Upgrade::Known
        } else if soft_failed_before {
            Upgrade::SoftFailedBefore
        } else if !authorized {
            Upgrade::Refused
        } else if !authorized_now {
            Upgrade::SoftFail
        } else if is_state {
            Upgrade::ResolveAndAppend
        } else {
            Upgrade::Append
        },
{
    if in_timeline {
        Upgrade::Known
    } else if soft_failed_before {
        Upgrade::SoftFailedBefore
    } else if !authorized {
        Upgrade::Refused
    } else if !authorized_now {
        Upgrade::SoftFail
    } else if is_state {
        Upgrade::ResolveAndAppend
    } else {
        Upgrade::Append
    }
}

/// The present forward extremities that stay once an event is appended: those
/// the event does not name as its previous events and that this server holds.
pub open spec fn kept_extremities(current: Seq<Seq<char>>, held: Seq<bool>, prev_events: Seq<Seq<char>>) -> Seq<Seq<char>>
    decreases current.len(),
{
    if current.len() == 0 {
        Seq::empty()
    } else {
        let rest = kept_extremities(current.drop_last(), held.drop_last(), prev_events);
        if !prev_events.contains(current.last()) && held.last() {
            rest.push(current.last())
        } else {
            rest
        }
    }
}

/// Which present extremities stay: exactly those this server holds that the
/// event does not name among its previous events, wherever they stand.
pub proof fn lemma_kept_extremities_members(current: Seq<Seq<char>>, held: Seq<bool>, prev_events: Seq<Seq<char>>)
    requires
        held.len() == current.len(),
    ensures
        forall|x: Seq<char>| #[trigger] kept_extremities(current, held, prev_events).contains(x) <==> exists|i: int|
            0 <= i < current.len() && current[i] == x && held[i] && !prev_events.contains(x),
    decreases current.len(),
{
    let k = kept_extremities(current, held, prev_events);
    if current.len() > 0 {
        let c0 = current.drop_last();
        let h0 = held.drop_last();
        lemma_kept_extremities_members(c0, h0, prev_events);
        let rest = kept_extremities(c0, h0, prev_events);
        let last = current.len() - 1;
        assert(current.last() == current[last]);
        assert(held.last() == held[last]);
        assert forall|x: Seq<char>| k.contains(x) <==> exists|i: int|
            0 <= i < current.len() && current[i] == x && held[i] && !prev_events.contains(x) by {
            if k.contains(x) {
                let j = choose|j: int| 0 <= j < k.len() && k[j] == x;
                if j < rest.len() {
                    assert(k[j] == rest[j]);
                    assert(rest.contains(x));
                    let i = choose|i: int| 0 <= i < c0.len() && c0[i] == x && h0[i] && !prev_events.contains(x);
                    assert(current[i] == c0[i] && held[i] == h0[i]);
                } else {
                    assert(x == current[last]);
                }
            }
            if exists|i: int| 0 <= i < current.len() && current[i] == x && held[i] && !prev_events.contains(x) {
                let i = choose|i: int| 0 <= i < current.len() && current[i] == x && held[i] && !prev_events.contains(x);
                if i < last {
                    assert(c0[i] == x && h0[i]);
                    assert(rest.contains(x));
                    let j = choose|j: int| 0 <= j < rest.len() && rest[j] == x;
                    assert(k[j] == x);
                } else {
                    assert(k[k.len() - 1] == x);
                }
            }
        }
    } else {
        assert forall|x: Seq<char>| !k.contains(x) by {}
    }
}

/// The forward extremities after an event: the event itself, last, and the
/// present extremities this server holds that the event does not name as
/// previous events. So every previous event of the event stops being an
/// extremity, whichever place it has among them, unless it is the event.
pub proof fn lemma_extremities_after_supersede(
    current: Seq<Seq<char>>,
    held: Seq<bool>,
    prev_events: Seq<Seq<char>>,
    incoming: Seq<char>,
)
    requires
        held.len() == current.len(),
    ensures
        ({
            let r = kept_extremities(current, held, prev_events).push(incoming);
            &&& r.last() == incoming
            &&& forall|x: Seq<char>| #[trigger] r.contains(x) <==> x == incoming || exists|i: int|
                0 <= i < current.len() && current[i] == x && held[i] && !prev_events.contains(x)
            &&& forall|j: int| 0 <= j < prev_events.len() && prev_events[j] != incoming
                ==> !r.contains(#[trigger] prev_events[j])
        }),
{
    lemma_kept_extremities_members(current, held, prev_events);
    let k = kept_extremities(current, held, prev_events);
    let r = k.push(incoming);
    assert forall|x: Seq<char>| #[trigger] r.contains(x) <==> x == incoming || k.contains(x) by {
        if r.contains(x) && x != incoming {
            let j = choose|j: int| 0 <= j < r.len() && r[j] == x;
            assert(k[j] == x);
        }
        if k.contains(x) {
            let j = choose|j: int| 0 <= j < k.len() && k[j] == x;
            assert(r[j] == x);
        }
        if x == incoming {
            assert(r[k.len() as int] == x);
        }
    }
    assert forall|j: int| 0 <= j < prev_events.len() && prev_events[j] != incoming
        implies !r.contains(#[trigger] prev_events[j]) by {
        assert(prev_events.contains(prev_events[j]));
        assert(!k.contains(prev_events[j]));
    }
}

/// Whether `v` holds `s`.
fn contains_text(v: &Vec<String>, s: &String) -> (r: bool)
    ensures
        r == texts(v@).contains(s@),
{
    let mut i: usize = 0;
    while i < v.len()
        invariant
            i <= v.len(),
            forall|j: int| 0 <= j < i ==> v@[j]@ != s@,
        decreases v.len() - i,
    {
        if v[i] == *s {
            proof {
                assert(texts(v@)[i as int] == s@);
            }
            return true;
        }
        i += 1;
    }
    proof {
        assert forall|j: int| 0 <= j < texts(v@).len() implies texts(v@)[j] != s@ by {
            assert(texts(v@)[j] == v@[j]@);
        }
    }
    false
}

/// The room's forward extremities once an event is appended: the present
/// ones that stay, then the event itself. `held[i]` says whether this server
/// holds `current[i]`.
pub fn extremities_after(current: &Vec<String>, held: &Vec<bool>, prev_events: &Vec<String>, incoming: String) -> (r: Vec<String>)
    requires
        held.len() == current.len(),
    ensures
        texts(r@) == kept_extremities(texts(current@), held@, texts(prev_events@)).push(incoming@),
{
    let ghost cur = texts(current@);
    let ghost prev = texts(prev_events@);
    let mut kept: Vec<String> = Vec::new();
    let mut i: usize = 0;
    while i < current.len()
        invariant
            i <= current.len(),
            held.len() == current.len(),
            cur == texts(current@),
            prev == texts(prev_events@),
            texts(kept@) == kept_extremities(cur.take(i as int), held@.take(i as int), prev),
        decreases current.len() - i,
    {
        proof {
            assert(cur.take(i + 1).drop_last() == cur.take(i as int));
            assert(held@.take(i + 1).drop_last() == held@.take(i as int));
            assert(cur.take(i + 1).last() == current@[i as int]@);
        }
        let superseded = contains_text(prev_events, &current[i]);
        if !superseded && held[i] {
            let ghost before = texts(kept@);
            kept.push(current[i].clone());
            proof {
                assert(texts(kept@) == before.push(current@[i as int]@));
            }
        }
        i += 1;
    }
    proof {
        assert(cur.take(i as int) == cur);
        assert(held@.take(i as int) == held@);
    }
    let ghost before = texts(kept@);
    kept.push(incoming);
    proof {
        assert(texts(kept@) == before.push(incoming@));
    }
    kept
}

/// What is done with one event of a gap, oldest first.
#[derive(Debug, Clone, Copy, PartialEq, Eq, Structural)]
pub enum GapStep {
    /// The time allowed for filling the gap is spent; stop.
    GiveUp,
    /// Leave this event out.
    Skip,
    /// Place it in the timeline.
    Place,
}

/// What is done with one event of a gap: nothing more once the time allowed
/// is spent; an event older than the room's history here, or already in the
/// timeline, is left out.
pub fn gap_step(over_budget: bool, origin_server_ts: u64, first_ts_in_room: u64, in_timeline: bool) -> (r: GapStep)
    ensures
        r == if over_budget {
            GapStep::GiveUp
        } else if origin_server_ts < first_ts_in_room || in_timeline {
            GapStep::Skip
        } else {
            GapStep::Place
        },
{
    if over_budget {
        GapStep::GiveUp
    } else if origin_server_ts < first_ts_in_room || in_timeline {
        GapStep::Skip
    } else {
        GapStep::Place
    }
}

/// The event ids that a server's answer places at each state key, for the
/// entries that are state events (`Some` key).
pub open spec fn placed(entries: Seq<(Option<u64>, Seq<char>)>) -> Map<u64, Seq<char>> {
    Map::new(
        |k: u64| exists|i: int| 0 <= i < entries.len() && #[trigger] entries[i].0 == Some(k),
        |k: u64| entries[choose|i: int| 0 <= i < entries.len() && #[trigger] entries[i].0 == Some(k)].1,
    )
}

/// Whether an answer places two different events at one state key.
pub open spec fn conflicting(entries: Seq<(Option<u64>, Seq<char>)>) -> bool {
    exists|i: int, j: int|
        0 <= i < entries.len() && 0 <= j < entries.len() && #[trigger] entries[i].0 == #[trigger] entries[j].0
            && entries[i].0 is Some && entries[i].1 != entries[j].1
}

/// The entries of an answer, with the event ids as texts.
pub open spec fn entry_texts(entries: Seq<(Option<u64>, String)>) -> Seq<(Option<u64>, Seq<char>)> {
    entries.map_values(|e: (Option<u64>, String)| (e.0, e.1@))
}

/// A state as a map from state key to event id.
pub open spec fn state_view(state: Seq<(u64, String)>) -> Map<u64, Seq<char>> {
    Map::new(
        |k: u64| exists|i: int| 0 <= i < state.len() && #[trigger] state[i].0 == k,
        |k: u64| state[choose|i: int| 0 <= i < state.len() && #[trigger] state[i].0 == k].1@,
    )
}

/// Whether no state key occurs twice in a state.
pub open spec fn distinct_keys(state: Seq<(u64, String)>) -> bool {
    forall|i: int, j: int| 0 <= i < j < state.len() ==> #[trigger] state[i].0 != #[trigger] state[j].0
}

/// In a state with distinct keys, entry `i` is what the map holds at its key.
proof fn lemma_state_view_at(state: Seq<(u64, String)>, i: int)
    requires
        distinct_keys(state),
        0 <= i < state.len(),
    ensures
        state_view(state).dom().contains(state[i].0),
        state_view(state)[state[i].0] == state[i].1@,
{
    let k = state[i].0;
    assert(state[i].0 == k);
    let j = choose|j: int| 0 <= j < state.len() && #[trigger] state[j].0 == k;
    if j < i {
        assert(state[j].0 != state[i].0);
    } else if i < j {
        assert(state[i].0 != state[j].0);
    }
}

/// Where state key `k` is in a state, if it is.
fn find_key(state: &Vec<(u64, String)>, k: u64) -> (r: Option<usize>)
    ensures
        match r {
            Some(i) => i < state.len() && state@[i as int].0 == k,
            None => forall|i: int| 0 <= i < state.len() ==> (#[trigger] state@[i]).0 != k,
        },
{
    let mut i: usize = 0;
    while i < state.len()
        invariant
            i <= state.len(),
            forall|j: int| 0 <= j < i ==> (#[trigger] state@[j]).0 != k,
        decreases state.len() - i,
    {
        if state[i].0 == k {
            return Some(i);
        }
        i += 1;
    }
    None
}

/// The state at an event from what a server answered: each state event's id
/// at its state key, non-state events ignored. An answer that places two
/// different events at one key, or that holds no create event, is not a state
/// the room could have been in, and gives none.
pub fn assemble_state(entries: &Vec<(Option<u64>, String)>, create_key: u64) -> (r: Option<Vec<(u64, String)>>)
    ensures
        r is Some <==> !conflicting(entry_texts(entries@)) && placed(entry_texts(entries@)).dom().contains(create_key),
        r matches Some(state) ==> distinct_keys(state@) && state_view(state@) == placed(entry_texts(entries@)),
{
    let ghost all = entry_texts(entries@);
    let mut state: Vec<(u64, String)> = Vec::new();
    let mut n: usize = 0;
    while n < entries.len()
        invariant
            n <= entries.len(),
            all == entry_texts(entries@),
            distinct_keys(state@),
            !conflicting(all.take(n as int)),
            state_view(state@) == placed(all.take(n as int)),
        decreases entries.len() - n,
    {
        let ghost pre = all.take(n as int);
        let ghost post = all.take(n + 1);
        proof {
            assert(post == pre.push(all[n as int]));
            assert(all[n as int] == (entries@[n as int].0, entries@[n as int].1@));
        }
        match entries[n].0 {
            None => {
                proof {
                    assert(!conflicting(post)) by {
                        if conflicting(post) {
                            let (i, j) = choose|i: int, j: int|
                                0 <= i < post.len() && 0 <= j < post.len() && #[trigger] post[i].0 == #[trigger] post[j].0
                                    && post[i].0 is Some && post[i].1 != post[j].1;
                            assert(i < n && j < n);
                            assert(pre[i] == post[i] && pre[j] == post[j]);
                        }
                    }
                    assert(placed(post) =~= placed(pre)) by {
                        assert forall|k: u64| #[trigger] placed(post).dom().contains(k) <==> placed(pre).dom().contains(k) by {
                            if placed(post).dom().contains(k) {
                                let i = choose|i: int| 0 <= i < post.len() && #[trigger] post[i].0 == Some(k);
                                assert(pre[i] == post[i]);
                            }
                            if placed(pre).dom().contains(k) {
                                let i = choose|i: int| 0 <= i < pre.len() && #[trigger] pre[i].0 == Some(k);
                                assert(pre[i] == post[i]);
                            }
                        }
                        assert forall|k: u64| #[trigger] placed(post).dom().contains(k) implies placed(post)[k] == placed(pre)[k] by {
                            let i = choose|i: int| 0 <= i < post.len() && #[trigger] post[i].0 == Some(k);
                            let j = choose|j: int| 0 <= j < pre.len() && #[trigger] pre[j].0 == Some(k);
                            assert(pre[i] == post[i]);
                            assert(pre[j] == post[j]);
                            assert(post[i].1 == post[j].1);
                        }
                    }
                }
            },
            Some(k) => {
                let id = &entries[n].1;
                match find_key(&state, k) {
                    Some(i) => {
                        if state[i].1 != *id {
                            proof {
                                lemma_state_view_at(state@, i as int);
                                let j = choose|j: int| 0 <= j < pre.len() && #[trigger] pre[j].0 == Some(k);
                                assert(post[j] == pre[j]);
                                assert(post[j].0 == post[n as int].0);
                                assert(post[j].1 != post[n as int].1);
                                assert(all.take(n + 1) == post);
                                assert(conflicting(all)) by {
                                    assert(all[j] == post[j]);
                                    assert(all[n as int] == post[n as int]);
                                    assert(all[j].0 == all[n as int].0);
                                }
                            }
                            return None;
                        }
                        proof {
                            lemma_state_view_at(state@, i as int);
                            assert(!conflicting(post)) by {
                                if conflicting(post) {
                                    let (a, b) = choose|a: int, b: int|
                                        0 <= a < post.len() && 0 <= b < post.len() && #[trigger] post[a].0 == #[trigger] post[b].0
                                            && post[a].0 is Some && post[a].1 != post[b].1;
                                    let j = choose|j: int| 0 <= j < pre.len() && #[trigger] pre[j].0 == Some(k);
                                    assert(pre[j] == post[j]);
                                    if a < n && b < n {
                                        assert(pre[a] == post[a] && pre[b] == post[b]);
                                    } else if a == n && b < n {
                                        assert(pre[b] == post[b]);
                                        assert(pre[b].0 == pre[j].0);
                                    } else if b == n && a < n {
                                        assert(pre[a] == post[a]);
                                        assert(pre[a].0 == pre[j].0);
                                    }
                                }
                            }
                            assert(placed(post) =~= placed(pre)) by {
                                assert forall|kk: u64| #[trigger] placed(post).dom().contains(kk) <==> placed(pre).dom().contains(kk) by {
                                    if placed(post).dom().contains(kk) {
                                        let a = choose|a: int| 0 <= a < post.len() && #[trigger] post[a].0 == Some(kk);
                                        if a < n {
                                            assert(pre[a] == post[a]);
                                        } else {
                                            let j = choose|j: int| 0 <= j < pre.len() && #[trigger] pre[j].0 == Some(k);
                                            assert(pre[j].0 == Some(kk));
                                        }
                                    }
                                    if placed(pre).dom().contains(kk) {
                                        let a = choose|a: int| 0 <= a < pre.len() && #[trigger] pre[a].0 == Some(kk);
                                        assert(pre[a] == post[a]);
                                    }
                                }
                                assert forall|kk: u64| #[trigger] placed(post).dom().contains(kk) implies placed(post)[kk] == placed(pre)[kk] by {
                                    let a = choose|a: int| 0 <= a < post.len() && #[trigger] post[a].0 == Some(kk);
                                    let b = choose|b: int| 0 <= b < pre.len() && #[trigger] pre[b].0 == Some(kk);
                                    assert(pre[b] == post[b]);
                                    assert(post[a].1 == post[b].1);
                                }
                            }
                        }
                    },
                    None => {
                        proof {
                            assert(!placed(pre).dom().contains(k)) by {
                                if placed(pre).dom().contains(k) {
                                    assert(state_view(state@).dom().contains(k));
                                    let i = choose|i: int| 0 <= i < state@.len() && #[trigger] state@[i].0 == k;
                                }
                            }
                            assert(!conflicting(post)) by {
                                if conflicting(post) {
                                    let (a, b) = choose|a: int, b: int|
                                        0 <= a < post.len() && 0 <= b < post.len() && #[trigger] post[a].0 == #[trigger] post[b].0
                                            && post[a].0 is Some && post[a].1 != post[b].1;
                                    if a < n && b < n {
                                        assert(pre[a] == post[a] && pre[b] == post[b]);
                                    } else if a == n && b < n {
                                        assert(pre[b] == post[b]);
                                        assert(pre[b].0 == Some(k));
                                    } else if b == n && a < n {
                                        assert(pre[a] == post[a]);
                                        assert(pre[a].0 == Some(k));
                                    }
                                }
                            }
                        }
                        let ghost before = state@;
                        state.push((k, id.clone()));
                        proof {
                            let m = before.len() as int;
                            assert(state@[m] == (k, entries@[n as int].1));
                            assert(distinct_keys(state@)) by {
                                assert forall|a: int, b: int| 0 <= a < b < state@.len() implies #[trigger] state@[a].0 != #[trigger] state@[b].0 by {
                                    if b == m {
                                        assert(state@[a] == before[a]);
                                    } else {
                                        assert(before[a].0 != before[b].0);
                                    }
                                }
                            }
                            assert(state_view(state@) =~= placed(post)) by {
                                assert forall|kk: u64| #[trigger] state_view(state@).dom().contains(kk) <==> placed(post).dom().contains(kk) by {
                                    if state_view(state@).dom().contains(kk) {
                                        let a = choose|a: int| 0 <= a < state@.len() && #[trigger] state@[a].0 == kk;
                                        if a < m {
                                            assert(before[a].0 == kk);
                                            assert(state_view(before).dom().contains(kk));
                                            let b = choose|b: int| 0 <= b < pre.len() && #[trigger] pre[b].0 == Some(kk);
                                            assert(post[b] == pre[b]);
                                        } else {
                                            assert(post[n as int].0 == Some(kk));
                                        }
                                    }
                                    if placed(post).dom().contains(kk) {
                                        let b = choose|b: int| 0 <= b < post.len() && #[trigger] post[b].0 == Some(kk);
                                        if b < n {
                                            assert(pre[b] == post[b]);
                                            assert(placed(pre).dom().contains(kk));
                                            let a = choose|a: int| 0 <= a < before.len() && #[trigger] before[a].0 == kk;
                                            assert(state@[a] == before[a]);
                                        } else {
                                            assert(state@[m].0 == kk);
                                        }
                                    }
                                }
                                assert forall|kk: u64| #[trigger] state_view(state@).dom().contains(kk) implies state_view(state@)[kk] == placed(post)[kk] by {
                                    let a = choose|a: int| 0 <= a < state@.len() && #[trigger] state@[a].0 == kk;
                                    lemma_state_view_at(state@, a);
                                    let b = choose|b: int| 0 <= b < post.len() && #[trigger] post[b].0 == Some(kk);
                                    if a < m {
                                        assert(state@[a] == before[a]);
                                        lemma_state_view_at(before, a);
                                        let c = choose|c: int| 0 <= c < pre.len() && #[trigger] pre[c].0 == Some(kk);
                                        assert(post[c] == pre[c]);
                                        if b == n {
                                            assert(pre[c].0 == Some(k));
                                        } else {
                                            assert(pre[b] == post[b]);
                                            assert(pre[b].1 == pre[c].1);
                                        }
                                    } else {
                                        if b < n {
                                            assert(pre[b] == post[b]);
                                            assert(pre[b].0 == Some(k));
                                        }
                                    }
                                }
                            }
                        }
                    },
                }
            },
        }
        n += 1;
    }
    proof {
        assert(all.take(n as int) == all);
    }
    match find_key(&state, create_key) {
        Some(i) => {
            proof {
                lemma_state_view_at(state@, i as int);
            }
            Some(state)
        },
        None => {
            proof {
                if state_view(state@).dom().contains(create_key) {
                    let i = choose|i: int| 0 <= i < state@.len() && #[trigger] state@[i].0 == create_key;
                }
            }
            None
        },
    }
}

/// A step of the walk through an event's missing auth events.
#[derive(Debug)]
pub enum GraphStep {
    /// Consider fetching this event.
    Fetch(String),
    /// Hand out this event, whose own auth events have been walked.
    Emit(String),
}

/// What the walk asks of its caller next.
#[derive(Debug, PartialEq, Eq)]
pub enum GraphAction {
    /// The walk is over.
    Done,
    /// Hand out this fetched event, once: every auth event of it that was
    /// fetched has been handed out before it, unless it was fetched before
    /// it, which only auth events that lead back to it can be.
    Emit(String),
    /// Fetch this event, unless it is held already or backed off, and report
    /// it fetched with its auth events.
    Consider(String),
}

/// A depth-first walk through the auth events an event needs, which hands
/// each fetched event out after the ones it depends on, and considers each
/// event once.
pub struct AuthGraphWalk {
    /// What is left to do, the next step last.
    pub stack: Vec<GraphStep>,
    /// The events considered so far.
    pub seen: Vec<String>,
    /// The events fetched and not yet handed out.
    pub fetched: Vec<String>,
    /// The events handed out so far.
    pub emitted: Ghost<Set<Seq<char>>>,
    /// The events fetched so far, in the order they were.
    pub order: Ghost<Seq<Seq<char>>>,
    /// The auth events each fetched event named.
    pub auths: Ghost<Map<Seq<char>, Seq<Seq<char>>>>,
    /// The event the walk has just asked to be considered, which is the only
    /// one that may be reported fetched.
    pub pending: Ghost<Option<Seq<char>>>,
}

/// The event a step is about.
pub open spec fn step_id(s: GraphStep) -> Seq<char> {
    match s {
        GraphStep::Fetch(id) => id@,
        GraphStep::Emit(id) => id@,
    }
}

impl AuthGraphWalk {
    /// The records agree: each event waits to be handed out at most once,
    /// only considered events are fetched or handed out, and no event both
    /// waits and has been handed out.
    pub open spec fn wf(&self) -> bool {
        &&& texts(self.fetched@).no_duplicates()
        &&& self.fetched_set().subset_of(self.seen_set())
        &&& self.fetched_set().disjoint(self.emitted@)
        &&& self.emitted@.subset_of(self.seen_set())
    }

    /// Whether event `a` was fetched before event `b`.
    pub open spec fn fetched_before(&self, a: Seq<char>, b: Seq<char>) -> bool {
        exists|i: int, j: int| 0 <= i < j < self.order@.len() && self.order@[i] == a && self.order@[j] == b
    }

    /// What the walk keeps of its order: the events fetched are those waiting
    /// and those handed out, each once; the steps that hand events out are
    /// those of the waiting events, in the order they were fetched; each
    /// auth event a waiting event named is considered, or has its step above
    /// it; and the event just asked to be considered is new.
    pub open spec fn ordered(&self) -> bool {
        let st = self.stack@;
        &&& self.wf()
        &&& self.order@.no_duplicates()
        &&& forall|x: Seq<char>| #[trigger] self.order@.contains(x) <==> (self.fetched_set().contains(x) || self.emitted@.contains(x))
        &&& forall|x: Seq<char>| #[trigger] self.auths@.dom().contains(x) <==> self.order@.contains(x)
        &&& forall|p: int| 0 <= p < st.len() && (#[trigger] st[p]) is Emit ==> self.fetched_set().contains(step_id(st[p]))
        &&& forall|x: Seq<char>| #[trigger] self.fetched_set().contains(x) ==> exists|p: int| 0 <= p < st.len() && (#[trigger] st[p]) is Emit && step_id(st[p]) == x
        &&& forall|p: int, q: int| 0 <= p < q < st.len() && (#[trigger] st[p]) is Emit && (#[trigger] st[q]) is Emit
            ==> self.fetched_before(step_id(st[p]), step_id(st[q]))
        &&& forall|p: int, a: Seq<char>| 0 <= p < st.len() && (#[trigger] st[p]) is Emit && #[trigger] self.auths@[step_id(st[p])].contains(a)
            ==> self.seen_set().contains(a) || exists|q: int| p < q < st.len() && (#[trigger] st[q]) is Fetch && step_id(st[q]) == a
        &&& self.pending@ matches Some(x) ==> self.seen_set().contains(x) && !self.order@.contains(x)
    }

    /// The events considered so far, as a set.
    pub open spec fn seen_set(&self) -> Set<Seq<char>> {
        texts(self.seen@).to_set()
    }

    /// The events fetched and not yet handed out, as a set.
    pub open spec fn fetched_set(&self) -> Set<Seq<char>> {
        texts(self.fetched@).to_set()
    }

    /// The steps a list of events starts a walk with: each to be considered,
    /// the first one first.
    pub open spec fn initial_steps(events: Seq<String>) -> Seq<GraphStep> {
        Seq::new(events.len(), |i: int| GraphStep::Fetch(events[events.len() - 1 - i]))
    }

    /// A walk from the events `events`, in order.
    pub fn new(events: &Vec<String>) -> (r: Self)
        ensures
            r.wf(),
            r.ordered(),
            r.seen@.len() == 0,
            r.fetched@.len() == 0,
            r.emitted@ == Set::<Seq<char>>::empty(),
            r.order@.len() == 0,
            r.pending@ is None,
            r.stack@ == Self::initial_steps(events@),
    {
        let mut stack: Vec<GraphStep> = Vec::new();
        let mut i: usize = events.len();
        while i > 0
            invariant
                i <= events.len(),
                stack@ == Self::initial_steps(events@).take(events.len() - i),
            decreases i,
        {
            i -= 1;
            proof {
                assert(Self::initial_steps(events@).take(events.len() - i) == Self::initial_steps(events@).take(events.len() - i - 1).push(GraphStep::Fetch(events@[i as int])));
            }
            stack.push(GraphStep::Fetch(events[i].clone()));
        }
        proof {
            assert(Self::initial_steps(events@).take(events.len() as int) == Self::initial_steps(events@));
        }
        let r = AuthGraphWalk {
            stack,
            seen: Vec::new(),
            fetched: Vec::new(),
            emitted: Ghost(Set::empty()),
            order: Ghost(Seq::empty()),
            auths: Ghost(Map::empty()),
            pending: Ghost(None),
        };
        proof {
            assert(texts(r.seen@).to_set() =~= Set::<Seq<char>>::empty());
            assert(texts(r.fetched@).to_set() =~= Set::<Seq<char>>::empty());
            assert forall|p: int| 0 <= p < r.stack@.len() implies !((#[trigger] r.stack@[p]) is Emit) by {
                assert(r.stack@[p] == Self::initial_steps(events@)[p]);
            }
        }
        r
    }

    /// What the walk does next from its steps, the next one last, given the
    /// events considered and those fetched and not handed out: how many steps
    /// stay, and the event to hand out (`true`) or to consider (`false`), if
    /// any is left. Steps for events already considered, and for events that
    /// are not waiting to be handed out, pass.
    pub open spec fn next_outcome(stack: Seq<GraphStep>, seen: Set<Seq<char>>, fetched: Set<Seq<char>>) -> (nat, Option<(bool, Seq<char>)>)
        decreases stack.len(),
    {
        if stack.len() == 0 {
            (0, None)
        } else {
            match stack.last() {
                GraphStep::Emit(id) => if fetched.contains(id@) {
                    ((stack.len() - 1) as nat, Some((true, id@)))
                } else {
                    Self::next_outcome(stack.drop_last(), seen, fetched)
                },
                GraphStep::Fetch(id) => if !seen.contains(id@) {
                    ((stack.len() - 1) as nat, Some((false, id@)))
                } else {
                    Self::next_outcome(stack.drop_last(), seen, fetched)
                },
            }
        }
    }

    /// A walk considers only events it has not considered before, hands out
    /// only events fetched and waiting, and never grows its steps to do so.
    pub proof fn lemma_next_outcome_is_fresh(stack: Seq<GraphStep>, seen: Set<Seq<char>>, fetched: Set<Seq<char>>)
        ensures
            Self::next_outcome(stack, seen, fetched).0 <= stack.len(),
            Self::next_outcome(stack, seen, fetched).1 matches Some((emit, id)) ==> if emit {
                fetched.contains(id)
            } else {
                !seen.contains(id)
            },
        decreases stack.len(),
    {
        if stack.len() > 0 {
            Self::lemma_next_outcome_is_fresh(stack.drop_last(), seen, fetched);
        }
    }

    /// The steps on top of a walk are worked through before those below
    /// them: the next action comes from the upper steps while any of them is
    /// actionable, and from the lower ones only once none is. So an event,
    /// whose handing out `fetched` puts below the steps for its auth events,
    /// is handed out only after those have been walked.
    pub proof fn lemma_upper_steps_first(lower: Seq<GraphStep>, upper: Seq<GraphStep>, seen: Set<Seq<char>>, fetched: Set<Seq<char>>)
        ensures
            Self::next_outcome(lower + upper, seen, fetched) == if Self::next_outcome(upper, seen, fetched).1 is Some {
                ((lower.len() + Self::next_outcome(upper, seen, fetched).0) as nat, Self::next_outcome(upper, seen, fetched).1)
            } else {
                Self::next_outcome(lower, seen, fetched)
            },
        decreases upper.len(),
    {
        if upper.len() == 0 {
            assert(lower + upper =~= lower);
        } else {
            assert((lower + upper).drop_last() =~= lower + upper.drop_last());
            assert((lower + upper).last() == upper.last());
            Self::lemma_upper_steps_first(lower, upper.drop_last(), seen, fetched);
        }
    }

    /// Whether a step is one that the walk passes: a hand-out of an event not
    /// waiting, or a look at an event already considered.
    pub open spec fn step_passes(s: GraphStep, seen: Set<Seq<char>>, fetched: Set<Seq<char>>) -> bool {
        match s {
            GraphStep::Emit(id) => !fetched.contains(id@),
            GraphStep::Fetch(id) => seen.contains(id@),
        }
    }

    /// Where the next action stands: at the step `next_outcome` leaves on top
    /// of the ones that stay, every step above it passing; with no action
    /// left, every step passes.
    proof fn lemma_next_outcome_position(stack: Seq<GraphStep>, seen: Set<Seq<char>>, fetched: Set<Seq<char>>)
        ensures
            ({
                let (n, action) = Self::next_outcome(stack, seen, fetched);
                match action {
                    Some((emit, id)) => {
                        &&& n < stack.len()
                        &&& step_id(stack[n as int]) == id
                        &&& (stack[n as int] is Emit <==> emit)
                        &&& forall|q: int| n < q < stack.len() ==> Self::step_passes(#[trigger] stack[q], seen, fetched)
                    },
                    None => n == 0 && forall|q: int| 0 <= q < stack.len() ==> Self::step_passes(#[trigger] stack[q], seen, fetched),
                }
            }),
        decreases stack.len(),
    {
        if stack.len() > 0 {
            let rest = stack.drop_last();
            let top = stack.len() - 1;
            assert(stack.last() == stack[top]);
            if Self::step_passes(stack.last(), seen, fetched) {
                assert(Self::next_outcome(stack, seen, fetched) == Self::next_outcome(rest, seen, fetched));
                Self::lemma_next_outcome_position(rest, seen, fetched);
                assert forall|q: int| 0 <= q < rest.len() implies rest[q] == #[trigger] stack[q] by {}
            } else {
                match stack.last() {
                    GraphStep::Emit(x) => {
                        assert(Self::next_outcome(stack, seen, fetched) == (top as nat, Some((true, x@))));
                    },
                    GraphStep::Fetch(x) => {
                        assert(Self::next_outcome(stack, seen, fetched) == (top as nat, Some((false, x@))));
                    },
                }
            }
        }
    }

    /// The order of a whole walk: in a walk kept in order (as `new`, `next`
    /// and `fetched` keep it), the event the walk would hand out next has not
    /// been handed out before, and each auth event it named, other than
    /// itself, has been considered; if that auth event was fetched, it was
    /// handed out before it, or else fetched before it, which happens only
    /// where its own auth events lead back to the event.
    pub proof fn lemma_hand_out_follows_auth_events(w: Self)
        requires
            w.ordered(),
        ensures
            Self::next_outcome(w.stack@, w.seen_set(), w.fetched_set()).1 matches Some((true, id)) ==> {
                &&& !w.emitted@.contains(id)
                &&& forall|a: Seq<char>| #[trigger] w.auths@[id].contains(a) && a != id ==> {
                    &&& w.seen_set().contains(a)
                    &&& w.order@.contains(a) ==> w.emitted@.contains(a) || w.fetched_before(a, id)
                }
            },
    {
        Self::lemma_next_outcome_position(w.stack@, w.seen_set(), w.fetched_set());
        let (n, action) = Self::next_outcome(w.stack@, w.seen_set(), w.fetched_set());
        if let Some((emit, id)) = action {
            if emit {
                let st = w.stack@;
                assert(st[n as int] is Emit);
                assert(w.fetched_set().contains(id)) by {
                    assert(!Self::step_passes(st[n as int], w.seen_set(), w.fetched_set())) by {
                        Self::lemma_next_outcome_is_fresh(st, w.seen_set(), w.fetched_set());
                    }
                }
                assert forall|a: Seq<char>| #[trigger] w.auths@[id].contains(a) && a != id implies {
                    &&& w.seen_set().contains(a)
                    &&& w.order@.contains(a) ==> w.emitted@.contains(a) || w.fetched_before(a, id)
                } by {
                    assert(w.auths@[step_id(st[n as int])].contains(a));
                    if !w.seen_set().contains(a) {
                        let q = choose|q: int| n < q < st.len() && (#[trigger] st[q]) is Fetch && step_id(st[q]) == a;
                        assert(Self::step_passes(st[q], w.seen_set(), w.fetched_set()));
                    }
                    if w.order@.contains(a) && !w.emitted@.contains(a) {
                        assert(w.fetched_set().contains(a));
                        let p = choose|p: int| 0 <= p < st.len() && (#[trigger] st[p]) is Emit && step_id(st[p]) == a;
                        if p > n {
                            assert(Self::step_passes(st[p], w.seen_set(), w.fetched_set()));
                        }
                        assert(p != n);
                        if p < n {
                            assert(w.fetched_before(step_id(st[p]), step_id(st[n as int])));
                        }
                    }
                }
            }
        }
    }

    /// Taking the step at `n`, after passing all those above it, keeps the
    /// other steps in their order, so a walk that was ordered stays so:
    /// taking it to consider a new event, or ending the walk.
    proof fn lemma_consider_or_done_keeps_order(w0: Self, w1: Self, n: int, consider: bool)
        requires
            w0.ordered(),
            0 <= n <= w0.stack@.len(),
            forall|q: int| n < q < w0.stack@.len() ==> Self::step_passes(#[trigger] w0.stack@[q], w0.seen_set(), w0.fetched_set()),
            consider ==> n < w0.stack@.len() && w0.stack@[n] is Fetch && !w0.seen_set().contains(step_id(w0.stack@[n])),
            !consider ==> n == 0 && (w0.stack@.len() > 0 ==> Self::step_passes(w0.stack@[0], w0.seen_set(), w0.fetched_set())),
            w1.stack@ == w0.stack@.take(n),
            w1.seen_set() == if consider { w0.seen_set().insert(step_id(w0.stack@[n])) } else { w0.seen_set() },
            w1.fetched@ == w0.fetched@,
            w1.emitted@ == w0.emitted@,
            w1.order@ == w0.order@,
            w1.auths@ == w0.auths@,
            w1.pending@ == if consider { Some(step_id(w0.stack@[n])) } else { None },
        ensures
            w1.wf() ==> w1.ordered(),
    {
        let st = w0.stack@;
        let st1 = w1.stack@;
        let len = st.len() as int;
        assert forall|x: Seq<char>| #[trigger] w1.fetched_set().contains(x) implies exists|p: int| 0 <= p < st1.len() && (#[trigger] st1[p]) is Emit && step_id(st1[p]) == x by {
            let p = choose|p: int| 0 <= p < st.len() && (#[trigger] st[p]) is Emit && step_id(st[p]) == x;
            if p > n || (p == n && !consider) {
                assert(Self::step_passes(st[p], w0.seen_set(), w0.fetched_set()));
            }
            assert(st1[p] == st[p]);
        }
        assert forall|p: int, a: Seq<char>| 0 <= p < st1.len() && (#[trigger] st1[p]) is Emit && #[trigger] w1.auths@[step_id(st1[p])].contains(a)
            implies w1.seen_set().contains(a) || exists|q: int| p < q < st1.len() && (#[trigger] st1[q]) is Fetch && step_id(st1[q]) == a by {
            assert(st1[p] == st[p]);
            if !w0.seen_set().contains(a) {
                let q = choose|q: int| p < q < st.len() && (#[trigger] st[q]) is Fetch && step_id(st[q]) == a;
                if q > n || (q == n && !consider) {
                    assert(Self::step_passes(st[q], w0.seen_set(), w0.fetched_set()));
                } else if q < n {
                    assert(st1[q] == st[q]);
                }
            }
        }
        assert forall|p: int, q: int| 0 <= p < q < st1.len() && (#[trigger] st1[p]) is Emit && (#[trigger] st1[q]) is Emit
            implies w1.fetched_before(step_id(st1[p]), step_id(st1[q])) by {
            assert(st1[p] == st[p] && st1[q] == st[q]);
        }
        if consider {
            let id = step_id(st[n]);
            if w0.order@.contains(id) {
                assert(w0.fetched_set().contains(id) || w0.emitted@.contains(id));
            }
        }
    }

    /// Taking the step at `n`, after passing all those above it, to hand out
    /// a waiting event keeps the walk ordered; and each auth event of that
    /// event, other than itself, has been considered, and, if fetched, was
    /// handed out before it or fetched before it.
    proof fn lemma_emit_keeps_order(w0: Self, w1: Self, n: int)
        requires
            w0.ordered(),
            0 <= n < w0.stack@.len(),
            forall|q: int| n < q < w0.stack@.len() ==> Self::step_passes(#[trigger] w0.stack@[q], w0.seen_set(), w0.fetched_set()),
            w0.stack@[n] is Emit,
            w0.fetched_set().contains(step_id(w0.stack@[n])),
            w1.stack@ == w0.stack@.take(n),
            w1.seen@ == w0.seen@,
            w1.fetched_set() == w0.fetched_set().remove(step_id(w0.stack@[n])),
            w1.emitted@ == w0.emitted@.insert(step_id(w0.stack@[n])),
            w1.order@ == w0.order@,
            w1.auths@ == w0.auths@,
            w1.pending@ is None,
        ensures
            w1.wf() ==> w1.ordered(),
            forall|a: Seq<char>| #[trigger] w0.auths@[step_id(w0.stack@[n])].contains(a) && a != step_id(w0.stack@[n]) ==> {
                &&& w0.seen_set().contains(a)
                &&& w0.order@.contains(a) ==> w0.emitted@.contains(a) || w0.fetched_before(a, step_id(w0.stack@[n]))
            },
    {
        let st = w0.stack@;
        let st1 = w1.stack@;
        let id = step_id(st[n]);
        assert forall|p: int| 0 <= p < st1.len() && (#[trigger] st1[p]) is Emit implies w1.fetched_set().contains(step_id(st1[p])) by {
            assert(st1[p] == st[p]);
            assert(w0.fetched_before(step_id(st[p]), id));
            let (i, j) = choose|i: int, j: int| 0 <= i < j < w0.order@.len() && w0.order@[i] == step_id(st[p]) && w0.order@[j] == id;
        }
        assert forall|x: Seq<char>| #[trigger] w1.fetched_set().contains(x) implies exists|p: int| 0 <= p < st1.len() && (#[trigger] st1[p]) is Emit && step_id(st1[p]) == x by {
            let p = choose|p: int| 0 <= p < st.len() && (#[trigger] st[p]) is Emit && step_id(st[p]) == x;
            if p > n {
                assert(Self::step_passes(st[p], w0.seen_set(), w0.fetched_set()));
            }
            assert(st1[p] == st[p]);
        }
        assert forall|p: int, a: Seq<char>| 0 <= p < st1.len() && (#[trigger] st1[p]) is Emit && #[trigger] w1.auths@[step_id(st1[p])].contains(a)
            implies w1.seen_set().contains(a) || exists|q: int| p < q < st1.len() && (#[trigger] st1[q]) is Fetch && step_id(st1[q]) == a by {
            assert(st1[p] == st[p]);
            if !w0.seen_set().contains(a) {
                let q = choose|q: int| p < q < st.len() && (#[trigger] st[q]) is Fetch && step_id(st[q]) == a;
                if q > n {
                    assert(Self::step_passes(st[q], w0.seen_set(), w0.fetched_set()));
                } else {
                    assert(st1[q] == st[q]);
                }
            }
        }
        assert forall|p: int, q: int| 0 <= p < q < st1.len() && (#[trigger] st1[p]) is Emit && (#[trigger] st1[q]) is Emit
            implies w1.fetched_before(step_id(st1[p]), step_id(st1[q])) by {
            assert(st1[p] == st[p] && st1[q] == st[q]);
        }
        assert forall|x: Seq<char>| #[trigger] w1.order@.contains(x) <==> (w1.fetched_set().contains(x) || w1.emitted@.contains(x)) by {
            assert(w0.order@.contains(x) <==> (w0.fetched_set().contains(x) || w0.emitted@.contains(x)));
        }
        assert forall|a: Seq<char>| #[trigger] w0.auths@[id].contains(a) && a != id implies {
            &&& w0.seen_set().contains(a)
            &&& w0.order@.contains(a) ==> w0.emitted@.contains(a) || w0.fetched_before(a, id)
        } by {
            assert(st[n] is Emit && w0.auths@[step_id(st[n])].contains(a));
            if !w0.seen_set().contains(a) {
                let q = choose|q: int| n < q < st.len() && (#[trigger] st[q]) is Fetch && step_id(st[q]) == a;
                assert(Self::step_passes(st[q], w0.seen_set(), w0.fetched_set()));
            }
            if w0.order@.contains(a) && !w0.emitted@.contains(a) {
                assert(w0.fetched_set().contains(a));
                let p = choose|p: int| 0 <= p < st.len() && (#[trigger] st[p]) is Emit && step_id(st[p]) == a;
                if p > n {
                    assert(Self::step_passes(st[p], w0.seen_set(), w0.fetched_set()));
                }
                assert(p != n);
            }
        }
    }

    /// Reporting the event just considered fetched keeps the walk ordered: it
    /// is fetched after every event fetched before, and its hand-out waits
    /// below the looks at its auth events.
    proof fn lemma_fetched_keeps_order(w0: Self, w1: Self, id: String, events: Seq<String>)
        requires
            w0.ordered(),
            w0.pending@ == Some(id@),
            w1.stack@ == w0.stack@.push(GraphStep::Emit(id)) + Self::initial_steps(events),
            w1.seen@ == w0.seen@,
            w1.emitted@ == w0.emitted@,
            w1.fetched_set() == w0.fetched_set().insert(id@),
            w1.order@ == w0.order@.push(id@),
            w1.auths@ == w0.auths@.insert(id@, texts(events)),
            w1.pending@ is None,
        ensures
            w1.wf() ==> w1.ordered(),
    {
        let st = w0.stack@;
        let st1 = w1.stack@;
        let len = st.len() as int;
        let o = w0.order@;
        let o1 = w1.order@;
        assert(!o.contains(id@));
        assert forall|p: int| 0 <= p < len implies #[trigger] st1[p] == st[p] by {}
        assert(st1[len] == GraphStep::Emit(id));
        assert forall|p: int| len < p < st1.len() implies (#[trigger] st1[p]) is Fetch
            && step_id(st1[p]) == events[events.len() - 1 - (p - len - 1)]@ by {
            assert(st1[p] == Self::initial_steps(events)[p - len - 1]);
        }
        assert forall|a: Seq<char>, b: Seq<char>| #[trigger] w0.fetched_before(a, b) implies w1.fetched_before(a, b) by {
            let (i, j) = choose|i: int, j: int| 0 <= i < j < o.len() && o[i] == a && o[j] == b;
            assert(o1[i] == a && o1[j] == b);
        }
        assert forall|x: Seq<char>| #[trigger] o1.contains(x) <==> o.contains(x) || x == id@ by {
            if o1.contains(x) && x != id@ {
                let i = choose|i: int| 0 <= i < o1.len() && o1[i] == x;
                assert(o[i] == x);
            }
            if x == id@ {
                assert(o1[o.len() as int] == x);
            }
            if o.contains(x) {
                let i = choose|i: int| 0 <= i < o.len() && o[i] == x;
                assert(o1[i] == x);
            }
        }
        assert(o1.no_duplicates()) by {
            assert forall|i: int, j: int| 0 <= i < j < o1.len() implies o1[i] != o1[j] by {
                if j == o.len() {
                    assert(o.contains(o1[i]));
                } else {
                    assert(o[i] != o[j]);
                }
            }
        }
        assert forall|x: Seq<char>| #[trigger] w1.auths@.dom().contains(x) <==> o1.contains(x) by {}
        assert forall|p: int| 0 <= p < st1.len() && (#[trigger] st1[p]) is Emit implies w1.fetched_set().contains(step_id(st1[p])) by {
            if p < len {
                assert(st1[p] == st[p]);
            }
        }
        assert forall|x: Seq<char>| #[trigger] w1.fetched_set().contains(x) implies exists|p: int| 0 <= p < st1.len() && (#[trigger] st1[p]) is Emit && step_id(st1[p]) == x by {
            if x == id@ {
                assert(st1[len] is Emit && step_id(st1[len]) == x);
            } else {
                let p = choose|p: int| 0 <= p < st.len() && (#[trigger] st[p]) is Emit && step_id(st[p]) == x;
                assert(st1[p] == st[p]);
            }
        }
        assert forall|p: int, q: int| 0 <= p < q < st1.len() && (#[trigger] st1[p]) is Emit && (#[trigger] st1[q]) is Emit
            implies w1.fetched_before(step_id(st1[p]), step_id(st1[q])) by {
            assert(st1[p] == st[p]);
            if q < len {
                assert(st1[q] == st[q]);
                assert(w0.fetched_before(step_id(st[p]), step_id(st[q])));
            } else {
                assert(q == len);
                let x = step_id(st[p]);
                assert(w0.fetched_set().contains(x));
                assert(o.contains(x));
                let i = choose|i: int| 0 <= i < o.len() && o[i] == x;
                assert(o1[i] == x && o1[o.len() as int] == id@);
            }
        }
        assert forall|p: int, a: Seq<char>| 0 <= p < st1.len() && (#[trigger] st1[p]) is Emit && #[trigger] w1.auths@[step_id(st1[p])].contains(a)
            implies w1.seen_set().contains(a) || exists|q: int| p < q < st1.len() && (#[trigger] st1[q]) is Fetch && step_id(st1[q]) == a by {
            if p < len {
                assert(st1[p] == st[p]);
                let x = step_id(st[p]);
                assert(w0.fetched_set().contains(x));
                assert(x != id@);
                assert(w1.auths@[x] == w0.auths@[x]);
                if !w0.seen_set().contains(a) {
                    let q = choose|q: int| p < q < st.len() && (#[trigger] st[q]) is Fetch && step_id(st[q]) == a;
                    assert(st1[q] == st[q]);
                }
            } else {
                assert(p == len);
                let t = texts(events);
                assert(w1.auths@[id@] == t);
                let k = choose|k: int| 0 <= k < t.len() && t[k] == a;
                let q = len + 1 + (events.len() - 1 - k);
                assert(step_id(st1[q]) == events[k]@);
            }
        }
    }

    /// The next thing to do, as `next_outcome` says: the steps it passes and
    /// the one it takes are gone, an event considered is recorded as seen
    /// and awaits its report, and an event handed out is no longer waiting,
    /// after the auth events of it that were fetched.
    #[verifier::loop_isolation(false)]
    #[verifier::spinoff_prover]
    pub fn next(&mut self) -> (r: GraphAction)
        requires
            old(self).ordered(),
        ensures
            final(self).wf(),
            final(self).ordered(),
            final(self).order@ == old(self).order@,
            final(self).auths@ == old(self).auths@,
            final(self).pending@ == match r {
                GraphAction::Consider(id) => Some(id@),
                _ => None,
            },
            r matches GraphAction::Emit(id) ==> forall|a: Seq<char>| #[trigger] old(self).auths@[id@].contains(a) && a != id@ ==> {
                &&& old(self).seen_set().contains(a)
                &&& old(self).order@.contains(a) ==> old(self).emitted@.contains(a) || old(self).fetched_before(a, id@)
            },
            match r {
                GraphAction::Emit(id) => !old(self).emitted@.contains(id@) && final(self).emitted@ == old(self).emitted@.insert(id@),
                _ => final(self).emitted@ == old(self).emitted@,
            },
            ({
                let (n, action) = Self::next_outcome(old(self).stack@, old(self).seen_set(), old(self).fetched_set());
                &&& n <= old(self).stack@.len()
                &&& final(self).stack@ == old(self).stack@.take(n as int)
                &&& match r {
                    GraphAction::Done => action is None,
                    GraphAction::Consider(id) => action == Some((false, id@)),
                    GraphAction::Emit(id) => action == Some((true, id@)),
                }
            }),
            match r {
                GraphAction::Consider(id) => {
                    &&& texts(final(self).seen@) == texts(old(self).seen@).push(id@)
                    &&& final(self).fetched@ == old(self).fetched@
                },
                GraphAction::Emit(id) => {
                    &&& final(self).seen@ == old(self).seen@
                    &&& exists|i: int| {
                        &&& 0 <= i < old(self).fetched@.len()
                        &&& (#[trigger] old(self).fetched@[i])@ == id@
                        &&& (forall|j: int| 0 <= j < i ==> old(self).fetched@[j]@ != id@)
                        &&& final(self).fetched@ == old(self).fetched@.remove(i)
                    }
                },
                GraphAction::Done => {
                    &&& final(self).seen@ == old(self).seen@
                    &&& final(self).fetched@ == old(self).fetched@
                },
            },
    {
        let ghost seen0 = self.seen_set();
        let ghost fetched0 = self.fetched_set();
        let ghost outcome = Self::next_outcome(self.stack@, seen0, fetched0);
        proof {
            assert(self.stack@.take(self.stack@.len() as int) == self.stack@);
        }
        while self.stack.len() > 0
            invariant
                self.stack@ == old(self).stack@.take(self.stack@.len() as int),
                self.stack@.len() <= old(self).stack@.len(),
                Self::next_outcome(self.stack@, seen0, fetched0) == outcome,
                outcome == Self::next_outcome(old(self).stack@, old(self).seen_set(), old(self).fetched_set()),
                seen0 == old(self).seen_set(),
                fetched0 == old(self).fetched_set(),
                self.seen@ == old(self).seen@,
                self.fetched@ == old(self).fetched@,
                self.emitted@ == old(self).emitted@,
                self.order@ == old(self).order@,
                self.auths@ == old(self).auths@,
                forall|q: int| self.stack@.len() <= q < old(self).stack@.len()
                    ==> Self::step_passes(#[trigger] old(self).stack@[q], seen0, fetched0),
            decreases self.stack.len(),
        {
            let ghost full = self.stack@;
            let step = self.stack.pop().unwrap();
            let ghost n = self.stack@.len() as int;
            proof {
                assert(self.stack@ == full.drop_last());
                assert(self.stack@ == old(self).stack@.take(self.stack@.len() as int));
                assert(step == old(self).stack@[n]);
                assert(forall|q: int| n < q < old(self).stack@.len() ==> Self::step_passes(#[trigger] old(self).stack@[q], seen0, fetched0));
            }
            match step {
                GraphStep::Emit(id) => {
                    let mut i: usize = 0;
                    while i < self.fetched.len()
                        invariant
                            i <= self.fetched.len(),
                            self.fetched@ == old(self).fetched@,
                            self.seen@ == old(self).seen@,
                            self.emitted@ == old(self).emitted@,
                            self.order@ == old(self).order@,
                            self.auths@ == old(self).auths@,
                            self.stack@ == full.drop_last(),
                            forall|j: int| 0 <= j < i ==> (#[trigger] self.fetched@[j])@ != id@,
                        decreases self.fetched.len() - i,
                    {
                        if self.fetched[i] == id {
                            proof {
                                assert(texts(self.fetched@)[i as int] == id@);
                                assert(texts(self.fetched@).contains(id@));
                                assert(fetched0.contains(id@));
                            }
                            let ghost before = texts(self.fetched@);
                            self.fetched.remove(i);
                            proof {
                                let after = texts(self.fetched@);
                                assert(after =~= before.remove(i as int));
                                assert(after.no_duplicates()) by {
                                    assert forall|x: int, y: int| 0 <= x < y < after.len() implies after[x] != after[y] by {
                                        let x0 = if x < i { x } else { x + 1 };
                                        let y0 = if y < i { y } else { y + 1 };
                                        assert(after[x] == before[x0] && after[y] == before[y0]);
                                    }
                                }
                                assert forall|v: Seq<char>| after.to_set().contains(v) <==> (before.to_set().contains(v) && v != id@) by {
                                    if after.contains(v) {
                                        let k = choose|k: int| 0 <= k < after.len() && after[k] == v;
                                        let k0 = if k < i { k } else { k + 1 };
                                        assert(before[k0] == v);
                                        assert(k0 != i);
                                    }
                                    if before.contains(v) && v != id@ {
                                        let k = choose|k: int| 0 <= k < before.len() && before[k] == v;
                                        assert(k != i);
                                        if k < i {
                                            assert(after[k] == v);
                                        } else {
                                            assert(after[k - 1] == v);
                                        }
                                    }
                                }
                                self.emitted@ = self.emitted@.insert(id@);
                                self.pending@ = None;
                                assert(self.fetched_set() =~= fetched0.remove(id@));
                                Self::lemma_emit_keeps_order(*old(self), *self, n);
                            }
                            return GraphAction::Emit(id);
                        }
                        i += 1;
                    }
                    proof {
                        assert(!fetched0.contains(id@)) by {
                            if texts(self.fetched@).contains(id@) {
                                let j = choose|j: int| 0 <= j < texts(self.fetched@).len() && texts(self.fetched@)[j] == id@;
                                assert(self.fetched@[j]@ == id@);
                            }
                        }
                    }
                },
                GraphStep::Fetch(id) => {
                    let mut i: usize = 0;
                    let mut known = false;
                    while i < self.seen.len()
                        invariant
                            i <= self.seen.len(),
                            self.seen@ == old(self).seen@,
                            known <==> exists|j: int| 0 <= j < i && (#[trigger] self.seen@[j])@ == id@,
                        decreases self.seen.len() - i,
                    {
                        if self.seen[i] == id {
                            known = true;
                        }
                        proof {
                            if known && !(self.seen@[i as int]@ == id@) {
                                let j = choose|j: int| 0 <= j < i && (#[trigger] self.seen@[j])@ == id@;
                                assert(0 <= j < i + 1);
                            }
                        }
                        i += 1;
                    }
                    proof {
                        if known {
                            let j = choose|j: int| 0 <= j < i && (#[trigger] self.seen@[j])@ == id@;
                            assert(texts(self.seen@)[j] == id@);
                            assert(seen0.contains(id@));
                        } else {
                            assert(!seen0.contains(id@)) by {
                                if texts(self.seen@).contains(id@) {
                                    let j = choose|j: int| 0 <= j < texts(self.seen@).len() && texts(self.seen@)[j] == id@;
                                    assert(self.seen@[j]@ == id@);
                                }
                            }
                        }
                    }
                    if !known {
                        let ghost before = self.seen@;
                        self.seen.push(id.clone());
                        proof {
                            assert(texts(self.seen@) == texts(before).push(id@));
                            texts(before).lemma_push_to_set_commute(id@);
                            self.pending@ = Some(id@);
                            Self::lemma_consider_or_done_keeps_order(*old(self), *self, n, true);
                        }
                        return GraphAction::Consider(id);
                    }
                },
            }
        }
        proof {
            self.pending@ = None;
            Self::lemma_consider_or_done_keeps_order(*old(self), *self, 0, false);
        }
        GraphAction::Done
    }

    /// Reports the event the walk has just asked to be considered fetched,
    /// with the auth events it names: it is handed out after they have been
    /// walked, the first of them first.
    pub fn fetched(&mut self, id: String, auth_events: &Vec<String>)
        requires
            old(self).ordered(),
            old(self).pending@ == Some(id@),
        ensures
            final(self).wf(),
            final(self).ordered(),
            final(self).order@ == old(self).order@.push(id@),
            final(self).auths@ == old(self).auths@.insert(id@, texts(auth_events@)),
            final(self).pending@ is None,
            final(self).emitted@ == old(self).emitted@,
            final(self).seen@ == old(self).seen@,
            final(self).fetched_set() == old(self).fetched_set().insert(id@),
            final(self).stack@ == old(self).stack@.push(GraphStep::Emit(id)) + Self::initial_steps(auth_events@),
    {
        proof {
            assert(!old(self).order@.contains(id@));
            assert(!old(self).fetched_set().contains(id@));
            assert(!old(self).emitted@.contains(id@));
        }
        let ghost before = self.fetched@;
        self.fetched.push(id.clone());
        proof {
            assert(texts(self.fetched@) == texts(before).push(id@));
            texts(before).lemma_push_to_set_commute(id@);
            assert(texts(self.fetched@).no_duplicates()) by {
                let t = texts(self.fetched@);
                assert forall|x: int, y: int| 0 <= x < y < t.len() implies t[x] != t[y] by {
                    if y == t.len() - 1 {
                        assert(texts(before).contains(t[x]));
                    } else {
                        assert(texts(before)[x] != texts(before)[y]);
                    }
                }
            }
        }
        self.stack.push(GraphStep::Emit(id));
        let ghost base = self.stack@;
        let mut i: usize = auth_events.len();
        while i > 0
            invariant
                i <= auth_events.len(),
                self.stack@ == base + Self::initial_steps(auth_events@).take(auth_events.len() - i),
                self.seen@ == old(self).seen@,
                self.fetched@ == old(self).fetched@.push(id),
                self.emitted@ == old(self).emitted@,
                self.fetched_set() == old(self).fetched_set().insert(id@),
                texts(self.fetched@).no_duplicates(),
                self.order@ == old(self).order@,
                self.auths@ == old(self).auths@,
                self.pending@ == old(self).pending@,
            decreases i,
        {
            i -= 1;
            proof {
                assert(Self::initial_steps(auth_events@).take(auth_events.len() - i) == Self::initial_steps(auth_events@).take(auth_events.len() - i - 1).push(GraphStep::Fetch(auth_events@[i as int])));
            }
            self.stack.push(GraphStep::Fetch(auth_events[i].clone()));
        }
        proof {
            assert(Self::initial_steps(auth_events@).take(auth_events.len() as int) == Self::initial_steps(auth_events@));
            self.order@ = self.order@.push(id@);
            self.auths@ = self.auths@.insert(id@, texts(auth_events@));
            self.pending@ = None;
            Self::lemma_fetched_keeps_order(*old(self), *self, id, auth_events@);
        }
    }
}

/// The state after an event: the state before it, with a state event placed
/// at its own state key, replacing what was there; a message event leaves it
/// as it was.
pub fn state_after(state: Vec<(u64, String)>, event_key: Option<u64>, event_id: String) -> (r: Vec<(u64, String)>)
    requires
        distinct_keys(state@),
    ensures
        distinct_keys(r@),
        state_view(r@) == match event_key {
            Some(k) => state_view(state@).insert(k, event_id@),
            None => state_view(state@),
        },
{
    let k = match event_key {
        Some(k) => k,
        None => return state,
    };
    let mut state = state;
    let ghost before = state@;
    let ghost id = event_id@;
    match find_key(&state, k) {
        Some(i) => {
            state.set(i, (k, event_id));
            proof {
                assert(distinct_keys(state@)) by {
                    assert forall|a: int, b: int| 0 <= a < b < state@.len() implies #[trigger] state@[a].0 != #[trigger] state@[b].0 by {
                        assert(state@[a].0 == before[a].0 && state@[b].0 == before[b].0);
                    }
                }
                assert(state_view(state@) =~= state_view(before).insert(k, id)) by {
                    assert forall|kk: u64| #[trigger] state_view(state@).dom().contains(kk) <==> state_view(before).insert(k, id).dom().contains(kk) by {
                        if state_view(state@).dom().contains(kk) {
                            let a = choose|a: int| 0 <= a < state@.len() && #[trigger] state@[a].0 == kk;
                            assert(before[a].0 == kk);
                        }
                        if state_view(before).dom().contains(kk) {
                            let a = choose|a: int| 0 <= a < before.len() && #[trigger] before[a].0 == kk;
                            assert(state@[a].0 == kk);
                        }
                        if kk == k {
                            assert(state@[i as int].0 == kk);
                        }
                    }
                    assert forall|kk: u64| #[trigger] state_view(state@).dom().contains(kk) implies state_view(state@)[kk] == state_view(before).insert(k, id)[kk] by {
                        let a = choose|a: int| 0 <= a < state@.len() && #[trigger] state@[a].0 == kk;
                        lemma_state_view_at(state@, a);
                        if a != i {
                            lemma_state_view_at(before, a);
                        }
                    }
                }
            }
        },
        None => {
            state.push((k, event_id));
            proof {
                let m = before.len() as int;
                assert(distinct_keys(state@)) by {
                    assert forall|a: int, b: int| 0 <= a < b < state@.len() implies #[trigger] state@[a].0 != #[trigger] state@[b].0 by {
                        if b == m {
                            assert(state@[a] == before[a]);
                        } else {
                            assert(before[a].0 != before[b].0);
                        }
                    }
                }
                assert(state_view(state@) =~= state_view(before).insert(k, id)) by {
                    assert forall|kk: u64| #[trigger] state_view(state@).dom().contains(kk) <==> state_view(before).insert(k, id).dom().contains(kk) by {
                        if state_view(state@).dom().contains(kk) {
                            let a = choose|a: int| 0 <= a < state@.len() && #[trigger] state@[a].0 == kk;
                            if a < m {
                                assert(before[a].0 == kk);
                            }
                        }
                        if state_view(before).dom().contains(kk) {
                            let a = choose|a: int| 0 <= a < before.len() && #[trigger] before[a].0 == kk;
                            assert(state@[a].0 == kk);
                        }
                        if kk == k {
                            assert(state@[m].0 == kk);
                        }
                    }
                    assert forall|kk: u64| #[trigger] state_view(state@).dom().contains(kk) implies state_view(state@)[kk] == state_view(before).insert(k, id)[kk] by {
                        let a = choose|a: int| 0 <= a < state@.len() && #[trigger] state@[a].0 == kk;
                        lemma_state_view_at(state@, a);
                        if a < m {
                            assert(state@[a] == before[a]);
                            lemma_state_view_at(before, a);
                        }
                    }
                }
            }
        },
    }
    state
}

/// An auth event an incoming event names, as far as assembling the state it
/// is checked against goes.
#[derive(Debug, Clone, PartialEq, Eq)]
pub struct AuthEventInfo {
    /// The event's id.
    pub event_id: String,
    /// Whether this server holds it.
    pub held: bool,
    /// Whether it is in the incoming event's room.
    pub same_room: bool,
    /// Its type and state key, where it is a state event.
    pub cell: Option<(String, String)>,
}

/// Why the auth events of an incoming event cannot be used.
#[derive(Debug, Clone, Copy, PartialEq, Eq, Structural)]
pub enum AuthStateError {
    /// One is from a different room.
    OtherRoom,
    /// One is not a state event.
    NotState,
    /// Two are for the same state key.
    Duplicate,
}

/// The cell of an auth event, as texts.
pub open spec fn info_cell(e: AuthEventInfo) -> Option<(Seq<char>, Seq<char>)> {
    match e.cell {
        Some((kind, key)) => Some((kind@, key@)),
        None => None,
    }
}

/// The state an incoming event is checked against, from the auth events it
/// names, in order, each with its cell: those this server does not hold are
/// passed over, and the first one from another room, not a state event, or
/// at a cell taken already, makes them unusable.
pub open spec fn auth_state_spec(events: Seq<AuthEventInfo>) -> Result<Seq<((Seq<char>, Seq<char>), Seq<char>)>, AuthStateError>
    decreases events.len(),
{
    if events.len() == 0 {
        Ok(Seq::empty())
    } else {
        match auth_state_spec(events.drop_last()) {
            Err(e) => Err(e),
            Ok(state) => {
                let e = events.last();
                if !e.held {
                    Ok(state)
                } else if !e.same_room {
                    Err(AuthStateError::OtherRoom)
                } else {
                    match info_cell(e) {
                        None => Err(AuthStateError::NotState),
                        Some(c) => if exists|i: int| 0 <= i < state.len() && (#[trigger] state[i]).0 == c {
                            Err(AuthStateError::Duplicate)
                        } else {
                            Ok(state.push((c, e.event_id@)))
                        },
                    }
                }
            },
        }
    }
}

/// The texts of an assembled auth state.
pub open spec fn auth_texts(state: Seq<((String, String), String)>) -> Seq<((Seq<char>, Seq<char>), Seq<char>)> {
    state.map_values(|e: ((String, String), String)| ((e.0.0@, e.0.1@), e.1@))
}

/// The state an incoming event is checked against, from its auth events.
/// The room's create event is added by the caller where no auth event took
/// its cell.
pub fn auth_state_of(events: &Vec<AuthEventInfo>) -> (r: Result<Vec<((String, String), String)>, AuthStateError>)
    ensures
        match r {
            Ok(state) => auth_state_spec(events@) == Ok::<_, AuthStateError>(auth_texts(state@)),
            Err(e) => auth_state_spec(events@) == Err::<Seq<((Seq<char>, Seq<char>), Seq<char>)>, _>(e),
        },
{
    let mut state: Vec<((String, String), String)> = Vec::new();
    let mut i: usize = 0;
    proof {
        assert(events@.take(0) =~= Seq::<AuthEventInfo>::empty());
        assert(auth_texts(state@) =~= Seq::empty());
    }
    while i < events.len()
        invariant
            i <= events.len(),
            auth_state_spec(events@.take(i as int)) == Ok::<_, AuthStateError>(auth_texts(state@)),
        decreases events.len() - i,
    {
        proof {
            assert(events@.take(i + 1).drop_last() == events@.take(i as int));
            assert(events@.take(i + 1).last() == events@[i as int]);
        }
        let e = &events[i];
        if e.held {
            if !e.same_room {
                proof {
                    lemma_auth_state_error_sticks(events@, i as int + 1);
                }
                return Err(AuthStateError::OtherRoom);
            }
            match &e.cell {
                None => {
                    proof {
                        lemma_auth_state_error_sticks(events@, i as int + 1);
                    }
                    return Err(AuthStateError::NotState);
                },
                Some(cell) => {
                    let mut taken = false;
                    let mut j: usize = 0;
                    while j < state.len()
                        invariant
                            j <= state.len(),
                            taken <==> exists|m: int| 0 <= m < j && (#[trigger] auth_texts(state@)[m]).0 == (cell.0@, cell.1@),
                        decreases state.len() - j,
                    {
                        if state[j].0.0 == cell.0 && state[j].0.1 == cell.1 {
                            taken = true;
                            proof {
                                assert(auth_texts(state@)[j as int].0 == (cell.0@, cell.1@));
                            }
                        } else {
                            proof {
                                assert(auth_texts(state@)[j as int].0 != (cell.0@, cell.1@));
                            }
                        }
                        proof {
                            if taken && !(auth_texts(state@)[j as int].0 == (cell.0@, cell.1@)) {
                                let m = choose|m: int| 0 <= m < j && (#[trigger] auth_texts(state@)[m]).0 == (cell.0@, cell.1@);
                                assert(0 <= m < j + 1);
                            }
                        }
                        j += 1;
                    }
                    if taken {
                        proof {
                            lemma_auth_state_error_sticks(events@, i as int + 1);
                        }
                        return Err(AuthStateError::Duplicate);
                    }
                    let ghost before = state@;
                    state.push(((cell.0.clone(), cell.1.clone()), e.event_id.clone()));
                    proof {
                        assert(auth_texts(state@) == auth_texts(before).push(((cell.0@, cell.1@), e.event_id@)));
                    }
                },
            }
        }
        i += 1;
    }
    proof {
        assert(events@.take(i as int) == events@);
    }
    Ok(state)
}

/// Once the auth events of a prefix are unusable, so are all of them.
proof fn lemma_auth_state_error_sticks(events: Seq<AuthEventInfo>, n: int)
    requires
        0 <= n <= events.len(),
        auth_state_spec(events.take(n)) is Err,
    ensures
        auth_state_spec(events) == auth_state_spec(events.take(n)),
    decreases events.len() - n,
{
    if n < events.len() {
        assert(events.take(n + 1).drop_last() == events.take(n));
        lemma_auth_state_error_sticks(events, n + 1);
    } else {
        assert(events.take(n) == events);
    }
}


/// The record of an event that failed to be fetched: when it last failed, in
/// seconds of a clock that only moves forward, and how many times in a row.
pub type BadEvent = (u64, u32);

/// The failure count after one more failure: one for an event that had not
/// failed, else one more, saturating.
pub open spec fn tries_after_failure(record: Option<BadEvent>) -> u32 {
    match record {
        Some((_, tries)) => if tries < u32::MAX { (tries + 1) as u32 } else { u32::MAX },
        None => 1,
    }
}

/// Records that fetching `event_id` failed at `now`.
pub fn mark_bad(bad: &mut TextMap<BadEvent>, event_id: &str, now: u64)
    ensures
        final(bad)@ == old(bad)@.insert(
            event_id@,
            (now, tries_after_failure(if old(bad)@.dom().contains(event_id@) { Some(old(bad)@[event_id@]) } else { None })),
        ),
{
    let tries = match bad.get(event_id) {
        Some(record) => record.1.saturating_add(1),
        None => 1,
    };
    bad.insert(event_id.to_owned(), (now, tries));
}

/// Forgets the failures of an event once it has been fetched.
pub fn mark_good(bad: &mut TextMap<BadEvent>, event_id: &str)
    ensures
        final(bad)@ == old(bad)@.remove(event_id@),
{
    bad.remove(event_id);
}


/// Whether a fetched event, given as its id and its timestamp, comes no later
/// than another: by timestamp, then by id.
pub open spec fn oldest_first(a: (String, u64), b: (String, u64)) -> bool {
    a.1 < b.1 || (a.1 == b.1 && (a.0@ == b.0@ || text_lt(a.0@, b.0@)))
}

/// The order is transitive.
proof fn lemma_oldest_first_transitive(a: (String, u64), b: (String, u64), c: (String, u64))
    requires
        oldest_first(a, b),
        oldest_first(b, c),
    ensures
        oldest_first(a, c),
{
    if a.1 == b.1 && b.1 == c.1 && text_lt(a.0@, b.0@) && text_lt(b.0@, c.0@) {
        lemma_text_lt_transitive(a.0@, b.0@, c.0@);
    }
}

/// Whether a list of fetched events is in order, oldest first.
pub open spec fn sorted_oldest_first_spec(s: Seq<(String, u64)>) -> bool {
    forall|i: int, j: int| 0 <= i < j < s.len() ==> oldest_first(#[trigger] s[i], #[trigger] s[j])
}

/// The events fetched to fill a gap, oldest first, ties broken by id, which
/// is the order they are handled in.
pub fn sorted_oldest_first(events: Vec<(String, u64)>) -> (r: Vec<(String, u64)>)
    ensures
        r@.to_multiset() == events@.to_multiset(),
        sorted_oldest_first_spec(r@),
{
    let ghost all = events@;
    let mut rest = events;
    let mut out: Vec<(String, u64)> = Vec::new();
    proof {
        vstd::seq_lib::to_multiset_len(out@);
        vstd::multiset::lemma_multiset_empty_len(out@.to_multiset());
        assert(out@.to_multiset().add(rest@.to_multiset()) =~= all.to_multiset());
    }
    while rest.len() > 0
        invariant
            sorted_oldest_first_spec(out@),
            out@.to_multiset().add(rest@.to_multiset()) == all.to_multiset(),
        decreases rest.len(),
    {
        let ghost rest_before = rest@;
        let e = rest.pop().unwrap();
        proof {
            assert(rest_before == rest@.push(e));
        }
        let mut i: usize = 0;
        while i < out.len()
            invariant
                i <= out.len(),
                sorted_oldest_first_spec(out@),
                forall|k: int| 0 <= k < i ==> oldest_first(#[trigger] out@[k], e),
            ensures
                i <= out.len(),
                forall|k: int| 0 <= k < i ==> oldest_first(#[trigger] out@[k], e),
                i < out.len() ==> oldest_first(e, out@[i as int]),
            decreases out.len() - i,
        {
            let before_e = if out[i].1 < e.1 {
                true
            } else if out[i].1 > e.1 {
                false
            } else {
                match compare_texts(out[i].0.as_str(), e.0.as_str()) {
                    TextOrder::Before | TextOrder::Same => true,
                    TextOrder::After => false,
                }
            };
            if !before_e {
                break;
            }
            i += 1;
        }
        let ghost o = out@;
        proof {
            assert forall|k: int| i <= k < o.len() implies oldest_first(e, #[trigger] o[k]) by {
                if k > i {
                    lemma_oldest_first_transitive(e, o[i as int], o[k]);
                }
            }
        }
        out.insert(i, e);
        proof {
            let n = out@;
            assert(n == o.insert(i as int, e));
            assert forall|a: int, b: int| 0 <= a < b < n.len() implies oldest_first(#[trigger] n[a], #[trigger] n[b]) by {
                if b < i {
                    assert(n[a] == o[a] && n[b] == o[b]);
                } else if b == i {
                    assert(n[a] == o[a]);
                } else if a == i {
                    assert(n[b] == o[b - 1]);
                } else if a < i {
                    assert(n[a] == o[a] && n[b] == o[b - 1]);
                    lemma_oldest_first_transitive(o[a], e, o[b - 1]);
                } else {
                    assert(n[a] == o[a - 1] && n[b] == o[b - 1]);
                }
            }
            vstd::seq_lib::to_multiset_insert(o, i as int, e);
            vstd::seq_lib::to_multiset_build(rest@, e);
            assert(out@.to_multiset().add(rest@.to_multiset()) =~= all.to_multiset());
        }
    }
    proof {
        vstd::seq_lib::to_multiset_len(rest@);
        vstd::multiset::lemma_multiset_empty_len(rest@.to_multiset());
        assert(out@.to_multiset() =~= all.to_multiset());
    }
    out
}


/// Whether `ruma` accepts a text as an event id.
pub uninterp spec fn valid_event_id(s: Seq<char>) -> bool;

/// Whether a text holds a colon, which sets a server name apart.
pub open spec fn has_colon(s: Seq<char>) -> bool {
    s.contains(':')
}

/// Whether a text starts with the sigil of event ids, `$`.
pub open spec fn starts_with_event_sigil(s: Seq<char>) -> bool {
    s.len() > 0 && s[0] == '$'
}

/// `ruma::EventId::parse`, reduced to whether it succeeds.
///
/// Claimed: the text parses exactly when the name `valid_event_id` holds of
/// it; as the `ruma-identifiers-validation` source shows, every event id
/// starts with `$`, and a text without a colon parses exactly when it does.
#[verifier::external_body]
fn is_event_id(s: &str) -> (r: bool)
    ensures
        r == valid_event_id(s@),
        r ==> starts_with_event_sigil(s@),
        !has_colon(s@) ==> (r <==> starts_with_event_sigil(s@)),
{
    ruma::EventId::parse(s).is_ok()
}

/// The event ids among some JSON values: the strings that are event ids, in
/// order.
pub open spec fn event_ids_among(items: Seq<JsonValue>) -> Seq<Seq<char>>
    decreases items.len(),
{
    if items.len() == 0 {
        Seq::empty()
    } else {
        let rest = event_ids_among(items.drop_last());
        match items.last() {
            JsonValue::Str(s) if valid_event_id(s@) => rest.push(s@),
            _ => rest,
        }
    }
}

/// The auth events a PDU names: the event ids in its `auth_events` array,
/// skipping anything else there; none where it has no such array.
pub fn auth_event_ids(pdu: &JsonObject) -> (r: Vec<String>)
    ensures
        texts(r@) == if pdu@.dom().contains("auth_events"@) && pdu@["auth_events"@] is Array {
            event_ids_among(pdu@["auth_events"@]->Array_0@)
        } else {
            Seq::empty()
        },
{
    let mut ids: Vec<String> = Vec::new();
    let items = match pdu.get("auth_events") {
        Some(JsonValue::Array(items)) => items,
        _ => {
            proof {
                assert(texts(ids@) =~= Seq::<Seq<char>>::empty());
            }
            return ids;
        },
    };
    let mut i: usize = 0;
    proof {
        assert(items@.take(0) =~= Seq::<JsonValue>::empty());
        assert(texts(ids@) =~= Seq::<Seq<char>>::empty());
    }
    while i < items.len()
        invariant
            i <= items.len(),
            texts(ids@) == event_ids_among(items@.take(i as int)),
        decreases items.len() - i,
    {
        proof {
            assert(items@.take(i + 1).drop_last() =~= items@.take(i as int));
            assert(items@.take(i + 1).last() == items@[i as int]);
        }
        match &items[i] {
            JsonValue::Str(s) => {
                if is_event_id(s.as_str()) {
                    let ghost before = ids@;
                    ids.push(s.clone());
                    proof {
                        assert(texts(ids@) =~= texts(before).push(s@));
                    }
                }
            },
            _ => {},
        }
        i += 1;
    }
    proof {
        assert(items@.take(i as int) =~= items@);
    }
    ids
}

} // verus!
