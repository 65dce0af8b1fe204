//! Who is in a room, kept denormalized per (user, room).
//!
//! A user's standing in a room is recorded in four places at once — joined,
//! invited, knocked, left — and a membership change writes its own record and
//! clears the other three, so that a user is never both joined to and invited
//! into the same room. Whether they were ever joined is kept apart, because
//! it outlives every later change.
//!
//! Nothing here is authoritative. The room's state is, and a disagreement
//! means the index is stale rather than that the membership changed.

use crate::text_order::texts;
use vstd::prelude::*;

verus! {

/// The membership a member event sets.
#[derive(Debug, Clone, Copy, PartialEq, Eq, Structural)]
pub enum MembershipState {
    Ban,
    Invite,
    Join,
    Knock,
    Leave,
    /// A membership this server does not know; it changes nothing here.
    Other,
}

/// Which membership a `mark_as_*` write is keeping, for
/// [`MemberIndex::clear_other_memberships`].
#[derive(Debug, Clone, Copy, PartialEq, Eq, Structural)]
pub enum Membership {
    Joined,
    Invited,
    Knocked,
    Left,
}

/// What the index holds for one user in one room.
///
/// The invited, knocked and left records carry the counter value the change
/// was made at, which is what orders it in a sync.
#[derive(Debug, Clone, Copy, PartialEq, Eq, Structural)]
pub struct MemberIndex {
    pub joined: bool,
    pub invited: Option<u64>,
    pub knocked: Option<u64>,
    pub left: Option<u64>,
    pub once_joined: bool,
}

/// How many of the four membership records are set.
pub open spec fn records_set(m: MemberIndex) -> nat {
    (if m.joined { 1nat } else { 0nat }) + (if m.invited is Some { 1nat } else { 0nat }) + (if m.knocked is Some { 1nat } else { 0nat }) + (if m.left is Some { 1nat } else { 0nat })
}

/// The record a membership keeps, and whether it is set.
pub open spec fn holds(m: MemberIndex, which: Membership) -> bool {
    match which {
        Membership::Joined => m.joined,
        Membership::Invited => m.invited is Some,
        Membership::Knocked => m.knocked is Some,
        Membership::Left => m.left is Some,
    }
}

/// The membership the index reports: joined first, then left, knocked and
/// invited; with none of those, a user who was once joined reads as banned.
pub open spec fn spec_user_membership(m: MemberIndex) -> Option<MembershipState> {
    if m.joined {
        Some(MembershipState::Join)
    } else if m.left is Some {
        Some(MembershipState::Leave)
    } else if m.knocked is Some {
        Some(MembershipState::Knock)
    } else if m.invited is Some {
        Some(MembershipState::Invite)
    } else if m.once_joined {
        Some(MembershipState::Ban)
    } else {
        None
    }
}

impl MemberIndex {
    /// A user the index has never heard of in this room.
    pub fn new() -> (m: MemberIndex)
        ensures
            records_set(m) == 0,
            !m.once_joined,
            spec_user_membership(m) is None,
    {
        MemberIndex { joined: false, invited: None, knocked: None, left: None, once_joined: false }
    }

    /// Clears every membership record but the one `keep` names.
    pub fn clear_other_memberships(&mut self, keep: Membership)
        ensures
            forall|w: Membership| w != keep ==> !holds(*final(self), w),
            holds(*final(self), keep) == holds(*old(self), keep),
            final(self).joined == (old(self).joined && keep == Membership::Joined),
            final(self).invited == (if keep == Membership::Invited { old(self).invited } else { None }),
            final(self).knocked == (if keep == Membership::Knocked { old(self).knocked } else { None }),
            final(self).left == (if keep == Membership::Left { old(self).left } else { None }),
            final(self).once_joined == old(self).once_joined,
    {
        if keep != Membership::Joined {
            self.joined = false;
        }
        if keep != Membership::Invited {
            self.invited = None;
        }
        if keep != Membership::Left {
            self.left = None;
        }
        if keep != Membership::Knocked {
            self.knocked = None;
        }
    }

    /// Records the user as joined.
    pub fn mark_as_joined(&mut self)
        ensures
            *final(self) == (MemberIndex {
                joined: true,
                invited: None,
                knocked: None,
                left: None,
                once_joined: old(self).once_joined,
            }),
            spec_user_membership(*final(self)) == Some(MembershipState::Join),
    {
        self.joined = true;
        self.clear_other_memberships(Membership::Joined);
    }

    /// Records the user as having left, at counter value `count`.
    pub fn mark_as_left(&mut self, count: u64)
        ensures
            *final(self) == (MemberIndex {
                joined: false,
                invited: None,
                knocked: None,
                left: Some(count),
                once_joined: old(self).once_joined,
            }),
            spec_user_membership(*final(self)) == Some(MembershipState::Leave),
    {
        self.left = Some(count);
        self.clear_other_memberships(Membership::Left);
    }

    /// Records the user as knocking, at counter value `count`.
    pub fn mark_as_knocked(&mut self, count: u64)
        ensures
            *final(self) == (MemberIndex {
                joined: false,
                invited: None,
                knocked: Some(count),
                left: None,
                once_joined: old(self).once_joined,
            }),
            spec_user_membership(*final(self)) == Some(MembershipState::Knock),
    {
        self.knocked = Some(count);
        self.clear_other_memberships(Membership::Knocked);
    }

    /// Records the user as invited, at counter value `count`.
    pub fn mark_as_invited(&mut self, count: u64)
        ensures
            *final(self) == (MemberIndex {
                joined: false,
                invited: Some(count),
                knocked: None,
                left: None,
                once_joined: old(self).once_joined,
            }),
            spec_user_membership(*final(self)) == Some(MembershipState::Invite),
    {
        self.invited = Some(count);
        self.clear_other_memberships(Membership::Invited);
    }

    /// Records that the user has been joined at least once.
    pub fn mark_as_once_joined(&mut self)
        ensures
            *final(self) == (MemberIndex { once_joined: true, ..*old(self) }),
    {
        self.once_joined = true;
    }

    /// Drops the user's record of having left, so that the room no longer
    /// shows in the `leave` section of their sync.
    pub fn forget(&mut self)
        ensures
            *final(self) == (MemberIndex { left: None, ..*old(self) }),
    {
        self.left = None;
    }

    /// The membership the index reports for the user.
    pub fn user_membership(&self) -> (r: Option<MembershipState>)
        ensures
            r == spec_user_membership(*self),
    {
        if self.joined {
            Some(MembershipState::Join)
        } else if self.left.is_some() {
            Some(MembershipState::Leave)
        } else if self.knocked.is_some() {
            Some(MembershipState::Knock)
        } else if self.invited.is_some() {
            Some(MembershipState::Invite)
        } else if self.once_joined {
            Some(MembershipState::Ban)
        } else {
            None
        }
    }
}

/// Every write keeps a user to at most one membership record per room.
pub proof fn lemma_marks_keep_one_record(m: MemberIndex, count: u64)
    ensures
        records_set(MemberIndex { joined: true, invited: None, knocked: None, left: None, once_joined: m.once_joined }) == 1,
        records_set(MemberIndex { joined: false, invited: Some(count), knocked: None, left: None, once_joined: m.once_joined }) == 1,
        records_set(MemberIndex { joined: false, invited: None, knocked: Some(count), left: None, once_joined: m.once_joined }) == 1,
        records_set(MemberIndex { joined: false, invited: None, knocked: None, left: Some(count), once_joined: m.once_joined }) == 1,
        records_set(m) <= 1 ==> records_set(MemberIndex { left: None, ..m }) <= 1,
        records_set(m) <= 1 ==> records_set(MemberIndex { once_joined: true, ..m }) <= 1,
{
}


/// What is known, when a member event lands, about the user it is for.
#[derive(Debug, Clone, Copy)]
pub struct MembershipChange {
    /// The membership the event sets.
    pub membership: MembershipState,
    /// Whether the user is one of this server's.
    pub user_is_local: bool,
    /// Whether the server already has a record of the user.
    pub user_exists: bool,
    /// Whether the user ignores the event's sender.
    pub sender_ignored: bool,
    /// Whether the room's create event names a predecessor room.
    pub has_predecessor: bool,
    /// Whether the server forgets a room for a local user as they leave it.
    pub forget_forced_upon_leave: bool,
    /// Whether an operator has banned the room.
    pub room_banned: bool,
    /// Whether an operator has disabled the room.
    pub room_disabled: bool,
    /// Whether the room's member counts are to be recomputed afterwards.
    pub update_joined_count: bool,
    /// A fresh counter value, for the record the change writes.
    pub count: u64,
}

/// What a membership change sets in motion beyond the index entry itself.
#[derive(Debug, Clone, Copy, PartialEq, Eq, Structural)]
pub struct MembershipEffects {
    /// A remote user seen for the first time gets a record of their own.
    pub create_user: bool,
    /// A first join into an upgraded room carries the user's tags and
    /// direct-chat marking over from the room it replaced.
    pub copy_room_settings: bool,
    /// The servers an invite named to join through are no longer needed.
    pub clear_invite_via: bool,
    /// The room's member counts and server list are recomputed.
    pub update_joined_count: bool,
}

/// Writes a membership change through to one user's index entry, and reports
/// what else it sets in motion.
///
/// An invite from a sender the user ignores changes nothing at all. A local
/// user leaving, or banned from, a room is made to forget it when the server
/// is configured so, or when the room itself is banned or disabled.
pub fn update_membership(index: &mut MemberIndex, change: &MembershipChange) -> (effects: MembershipEffects)
    ensures
        effects.create_user == (!change.user_is_local && !change.user_exists),
        change.membership == MembershipState::Invite && change.sender_ignored ==> {
            &&& *final(index) == *old(index)
            &&& !effects.copy_room_settings && !effects.clear_invite_via && !effects.update_joined_count
        },
        !(change.membership == MembershipState::Invite && change.sender_ignored) ==> effects.update_joined_count == change.update_joined_count,
        change.membership == MembershipState::Join ==> {
            &&& *final(index) == (MemberIndex { joined: true, invited: None, knocked: None, left: None, once_joined: true })
            &&& effects.copy_room_settings == (!old(index).once_joined && change.has_predecessor)
            &&& effects.clear_invite_via
        },
        change.membership == MembershipState::Invite && !change.sender_ignored ==> {
            &&& *final(index) == (MemberIndex { joined: false, invited: Some(change.count), knocked: None, left: None, once_joined: old(index).once_joined })
            &&& !effects.copy_room_settings && !effects.clear_invite_via
        },
        change.membership == MembershipState::Leave || change.membership == MembershipState::Ban ==> {
            let forget = change.user_is_local && (change.forget_forced_upon_leave || change.room_banned || change.room_disabled);
            &&& *final(index) == (MemberIndex { joined: false, invited: None, knocked: None, left: if forget { None } else { Some(change.count) }, once_joined: old(index).once_joined })
            &&& !effects.copy_room_settings && effects.clear_invite_via
        },
        change.membership == MembershipState::Knock ==> {
            &&& *final(index) == (MemberIndex { joined: false, invited: None, knocked: Some(change.count), left: None, once_joined: old(index).once_joined })
            &&& !effects.copy_room_settings && effects.clear_invite_via
        },
        change.membership == MembershipState::Other ==> {
            &&& *final(index) == *old(index)
            &&& !effects.copy_room_settings && !effects.clear_invite_via
        },
{
    let mut effects = MembershipEffects {
        create_user: !change.user_is_local && !change.user_exists,
        copy_room_settings: false,
        clear_invite_via: false,
        update_joined_count: false,
    };
    match change.membership {
        MembershipState::Join => {
            if !index.once_joined {
                index.mark_as_once_joined();
                effects.copy_room_settings = change.has_predecessor;
            }
            index.mark_as_joined();
            effects.clear_invite_via = true;
        },
        MembershipState::Invite => {
            if change.sender_ignored {
                return effects;
            }
            index.mark_as_invited(change.count);
        },
        MembershipState::Leave | MembershipState::Ban => {
            index.mark_as_left(change.count);
            effects.clear_invite_via = true;
            if change.user_is_local && (change.forget_forced_upon_leave || change.room_banned
                || change.room_disabled) {
                index.forget();
            }
        },
        MembershipState::Knock => {
            index.mark_as_knocked(change.count);
            effects.clear_invite_via = true;
        },
        MembershipState::Other => {},
    }
    effects.update_joined_count = change.update_joined_count;
    effects
}

/// Whether purging a room takes a user's record of having left it with it:
/// always when forced, and otherwise only for remote users, since a local
/// user's leave record is how their client learns the room ended.
pub fn purges_left_record(force: bool, user_is_local: bool) -> (purge: bool)
    ensures
        purge == (force || !user_is_local),
{
    force || !user_is_local
}

/// A user's direct chats with one other user once a room is upgraded: the
/// replacement room is added to any list that names the room it replaces.
pub open spec fn carried_list(rooms: Seq<Seq<char>>, predecessor: Seq<char>, room: Seq<char>) -> Seq<Seq<char>> {
    if rooms.contains(predecessor) {
        rooms.push(room)
    } else {
        rooms
    }
}

/// Carries a user's direct-chat marking over to an upgraded room: every list
/// of rooms that names the predecessor gains the new room. Says whether any
/// list changed, which is when the marking is written back.
pub fn carry_direct_chats(direct: Vec<Vec<String>>, predecessor: &str, room_id: &str) -> (r: (Vec<Vec<String>>, bool))
    ensures
        r.0@.len() == direct@.len(),
        forall|i: int| 0 <= i < r.0@.len() ==> texts(#[trigger] r.0@[i]@) == carried_list(texts(direct@[i]@), predecessor@, room_id@),
        r.1 == exists|i: int| 0 <= i < direct@.len() && texts(#[trigger] direct@[i]@).contains(predecessor@),
{
    let ghost all = direct@;
    let pred = predecessor.to_owned();
    let mut rest = crate::spaces::reversed(direct);
    let mut out: Vec<Vec<String>> = Vec::new();
    let mut updated = false;
    let mut i: usize = 0;
    proof {
        assert(rest@.len() == all.len());
        assert(rest.len() <= usize::MAX);
    }
    while rest.len() > 0
        invariant
            i + rest.len() == all.len(),
            all.len() <= usize::MAX,
            rest@ == all.skip(i as int).reverse(),
            pred@ == predecessor@,
            out@.len() == i,
            forall|j: int| 0 <= j < i ==> texts(#[trigger] out@[j]@) == carried_list(texts(all[j]@), predecessor@, room_id@),
            updated == exists|j: int| 0 <= j < i && texts(#[trigger] all[j]@).contains(predecessor@),
        decreases rest.len(),
    {
        let ghost before_rest = rest@;
        let mut rooms = rest.pop().unwrap();
        let ghost before = rooms@;
        proof {
            assert(before_rest.last() == all.skip(i as int).reverse().last());
            assert(before == all[i as int]@);
            assert(rest@ == all.skip(i + 1).reverse()) by {
                assert(all.skip(i + 1) == all.skip(i as int).drop_first());
            }
        }
        let mut named = false;
        let mut k: usize = 0;
        while k < rooms.len()
            invariant
                k <= rooms.len(),
                rooms@ == before,
                pred@ == predecessor@,
                named <==> exists|m: int| 0 <= m < k && (#[trigger] rooms@[m])@ == predecessor@,
            decreases rooms.len() - k,
        {
            if rooms[k] == pred {
                named = true;
            }
            proof {
                if named && !(rooms@[k as int]@ == predecessor@) {
                    let m = choose|m: int| 0 <= m < k && (#[trigger] rooms@[m])@ == predecessor@;
                    assert(0 <= m < k + 1);
                }
            }
            k += 1;
        }
        proof {
            if named {
                let m = choose|m: int| 0 <= m < k && (#[trigger] rooms@[m])@ == predecessor@;
                assert(texts(before)[m] == predecessor@);
            } else {
                assert(!texts(before).contains(predecessor@)) by {
                    if texts(before).contains(predecessor@) {
                        let m = choose|m: int| 0 <= m < texts(before).len() && texts(before)[m] == predecessor@;
                        assert(before[m]@ == predecessor@);
                    }
                }
            }
        }
        if named {
            rooms.push(room_id.to_owned());
            updated = true;
            proof {
                assert(texts(rooms@) == texts(before).push(room_id@));
            }
        }
        let ghost list = rooms@;
        out.push(rooms);
        proof {
            assert(out@[i as int]@ == list);
            assert(updated == exists|j: int| 0 <= j < i + 1 && texts(#[trigger] all[j]@).contains(predecessor@)) by {
                if updated && !named {
                    let j = choose|j: int| 0 <= j < i && texts(#[trigger] all[j]@).contains(predecessor@);
                    assert(0 <= j < i + 1);
                }
                if named {
                    assert(texts(all[i as int]@).contains(predecessor@));
                }
            }
        }
        i += 1;
    }
    (out, updated)
}

} // verus!
