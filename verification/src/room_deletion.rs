//! Shutting a room down, and wiping what is left of it.
//!
//! A shutdown puts every local user out of the room, frees its local aliases
//! and stops advertising it; the room stays on disk. A purge then wipes
//! everything this server holds for it, in an order that reaches everything
//! keyed by the room's short id before the room gives that id up.

use crate::state_cache::MembershipState;
use crate::text_order::texts;
use vstd::prelude::*;

verus! {

/// What a leaving user is told the room was closed for.
pub const LEAVE_REASON: &'static str = "Room deleted";

/// How one local user is put out of a room.
#[derive(Debug, Clone, Copy, PartialEq, Eq, Structural)]
pub enum Eviction {
    /// The user's own leave event is sent.
    SendLeave,
    /// Only this server's membership indexes are cleared.
    ClearLocally,
}

/// How a user is put out: with their own leave event where the room's state
/// has them invited, joined or knocking, and otherwise by clearing this
/// server's indexes alone.
pub fn eviction_of(membership: Option<MembershipState>) -> (r: Eviction)
    ensures
        r == match membership {
            Some(MembershipState::Invite) | Some(MembershipState::Join) | Some(MembershipState::Knock) => Eviction::SendLeave,
            _ => Eviction::ClearLocally,
        },
{
    match membership {
        Some(MembershipState::Invite) | Some(MembershipState::Join) | Some(MembershipState::Knock) => Eviction::SendLeave,
        _ => Eviction::ClearLocally,
    }
}

/// What follows a leave event that was sent or refused: a refused one falls
/// back to clearing the indexes, so the room leaves the user's sync either
/// way.
pub fn after_leave_sent(sent: bool) -> (r: Option<Eviction>)
    ensures
        r == if sent { None::<Eviction> } else { Some(Eviction::ClearLocally) },
{
    if sent {
        None
    } else {
        Some(Eviction::ClearLocally)
    }
}

/// The users with the given eviction outcome, in order.
pub open spec fn with_outcome(users: Seq<Seq<char>>, evicted: Seq<bool>, outcome: bool) -> Seq<Seq<char>>
    decreases users.len(),
{
    if users.len() == 0 {
        Seq::empty()
    } else {
        let rest = with_outcome(users.drop_last(), evicted.drop_last(), outcome);
        if evicted.last() == outcome {
            rest.push(users.last())
        } else {
            rest
        }
    }
}

/// The users a shutdown put out of the room and those it failed to, each in
/// the order they were tried.
pub fn tally_evictions(users: Vec<String>, evicted: &Vec<bool>) -> (r: (Vec<String>, Vec<String>))
    requires
        evicted.len() == users.len(),
    ensures
        texts(r.0@) == with_outcome(texts(users@), evicted@, true),
        texts(r.1@) == with_outcome(texts(users@), evicted@, false),
{
    let ghost all = texts(users@);
    let mut kicked: Vec<String> = Vec::new();
    let mut failed: Vec<String> = Vec::new();
    let mut i: usize = 0;
    while i < users.len()
        invariant
            i <= users.len(),
            evicted.len() == users.len(),
            all == texts(users@),
            texts(kicked@) == with_outcome(all.take(i as int), evicted@.take(i as int), true),
            texts(failed@) == with_outcome(all.take(i as int), evicted@.take(i as int), false),
        decreases users.len() - i,
    {
        proof {
            assert(all.take(i + 1).drop_last() == all.take(i as int));
            assert(evicted@.take(i + 1).drop_last() == evicted@.take(i as int));
            assert(all.take(i + 1).last() == users@[i as int]@);
        }
        if evicted[i] {
            let ghost before = texts(kicked@);
            kicked.push(users[i].clone());
            proof {
                assert(texts(kicked@) == before.push(users@[i as int]@));
            }
        } else {
            let ghost before = texts(failed@);
            failed.push(users[i].clone());
            proof {
                assert(texts(failed@) == before.push(users@[i as int]@));
            }
        }
        i += 1;
    }
    proof {
        assert(all.take(i as int) == all);
        assert(evicted@.take(i as int) == evicted@);
    }
    (kicked, failed)
}

/// One step of wiping a room.
#[derive(Debug, Clone, Copy, PartialEq, Eq, Structural)]
pub enum PurgeStep {
    /// Read the users who were ever joined, whose unread counters are to go.
    ReadMembers,
    /// Delete the room's events.
    DeleteEvents,
    /// Delete its threads.
    DeleteThreads,
    /// Delete its search index.
    DeleteSearchIndex,
    /// Delete its forward extremities.
    DeleteExtremities,
    /// Delete its event references.
    DeleteReferences,
    /// Delete its read receipts.
    DeleteReceipts,
    /// Delete its users' notification state.
    DeleteNotificationState,
    /// Delete its membership indexes.
    DeleteMemberships,
    /// Delete its state version.
    DeleteStateVersion,
    /// Give up its short id.
    DeleteShortId,
}

/// The steps of wiping a room, in order; none for a room with no short id,
/// which has nothing stored. The members are read before the membership
/// indexes go, and the short id is given up last.
pub fn purge_steps(has_short_id: bool) -> (r: Vec<PurgeStep>)
    ensures
        !has_short_id ==> r@.len() == 0,
        has_short_id ==> r@ == seq![
            PurgeStep::ReadMembers,
            PurgeStep::DeleteEvents,
            PurgeStep::DeleteThreads,
            PurgeStep::DeleteSearchIndex,
            PurgeStep::DeleteExtremities,
            PurgeStep::DeleteReferences,
            PurgeStep::DeleteReceipts,
            PurgeStep::DeleteNotificationState,
            PurgeStep::DeleteMemberships,
            PurgeStep::DeleteStateVersion,
            PurgeStep::DeleteShortId,
        ],
{
    let mut r: Vec<PurgeStep> = Vec::new();
    if !has_short_id {
        return r;
    }
    r.push(PurgeStep::ReadMembers);
    r.push(PurgeStep::DeleteEvents);
    r.push(PurgeStep::DeleteThreads);
    r.push(PurgeStep::DeleteSearchIndex);
    r.push(PurgeStep::DeleteExtremities);
    r.push(PurgeStep::DeleteReferences);
    r.push(PurgeStep::DeleteReceipts);
    r.push(PurgeStep::DeleteNotificationState);
    r.push(PurgeStep::DeleteMemberships);
    r.push(PurgeStep::DeleteStateVersion);
    r.push(PurgeStep::DeleteShortId);
    proof {
        assert(r@ =~= seq![
            PurgeStep::ReadMembers,
            PurgeStep::DeleteEvents,
            PurgeStep::DeleteThreads,
            PurgeStep::DeleteSearchIndex,
            PurgeStep::DeleteExtremities,
            PurgeStep::DeleteReferences,
            PurgeStep::DeleteReceipts,
            PurgeStep::DeleteNotificationState,
            PurgeStep::DeleteMemberships,
            PurgeStep::DeleteStateVersion,
            PurgeStep::DeleteShortId,
        ]);
    }
    r
}

/// Every user tried is either put out or failed, never both, and none is
/// lost.
pub proof fn lemma_evictions_partition(users: Seq<Seq<char>>, evicted: Seq<bool>)
    requires
        evicted.len() == users.len(),
    ensures
        with_outcome(users, evicted, true).len() + with_outcome(users, evicted, false).len() == users.len(),
    decreases users.len(),
{
    if users.len() > 0 {
        lemma_evictions_partition(users.drop_last(), evicted.drop_last());
    }
}

} // verus!
