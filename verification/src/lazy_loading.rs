//! Which members a device has already been told about, per room.
//!
//! Lazy loading lets a sync send only the membership events for senders the
//! client needs, but that only works if the server remembers what it has
//! already sent: a later sync must not re-send what an earlier one did, and
//! must still send a member the client has never seen. For one user, device
//! and room, a record maps each member sent to the sync token it was
//! confirmed at, `0` while it is not yet confirmed.

use crate::text_order::texts;
use vstd::prelude::*;

verus! {

/// What a client's filter says about lazy loading.
pub trait Options {
    /// Whether members are loaded lazily at all.
    fn is_enabled(&self) -> bool;

    /// Whether members the client already has are sent again.
    fn include_redundant_members(&self) -> bool;
}

/// A client's lazy loading setting, as a filter carries it.
#[derive(Debug, Clone, Copy, PartialEq, Eq, Structural)]
pub enum LazyLoadOptions {
    /// Every member is sent.
    Disabled,
    /// Only the members the events need are sent.
    Enabled {
        /// Members the client already has are sent again.
        include_redundant_members: bool,
    },
}

impl Options for LazyLoadOptions {
    fn is_enabled(&self) -> (r: bool)
        ensures
            r == (*self is Enabled),
    {
        match self {
            LazyLoadOptions::Disabled => false,
            LazyLoadOptions::Enabled { .. } => true,
        }
    }

    fn include_redundant_members(&self) -> (r: bool)
        ensures
            r == (*self matches LazyLoadOptions::Enabled { include_redundant_members } && include_redundant_members),
    {
        match self {
            LazyLoadOptions::Enabled { include_redundant_members } => *include_redundant_members,
            LazyLoadOptions::Disabled => false,
        }
    }
}

/// What the record says of one member.
#[derive(Debug, Clone, Copy, PartialEq, Eq, Structural)]
pub enum Status {
    /// Never sent.
    Unseen,
    /// Sent, and confirmed at this sync token, or `0` while unconfirmed.
    Seen(u64),
}

/// The status a stored value reads as; no value reads as unseen.
pub fn into_status(stored: Option<u64>) -> (r: Status)
    ensures
        r == match stored {
            Some(seen) => Status::Seen(seen),
            None => Status::Unseen,
        },
{
    match stored {
        Some(seen) => Status::Seen(seen),
        None => Status::Unseen,
    }
}

/// What witnessing a member writes to its record: `0` for a member never
/// sent, the sync's token (or `0` without one) for a member sent but not yet
/// confirmed, and nothing for a confirmed one.
pub open spec fn spec_next_record(status: Status, token: Option<u64>) -> Option<u64> {
    match status {
        Status::Unseen => Some(0),
        Status::Seen(0) => Some(
            match token {
                Some(t) => t,
                None => 0,
            },
        ),
        Status::Seen(_) => None,
    }
}

/// Whether a member is sent: when redundant members are asked for, when it
/// was never sent, when it is not yet confirmed, or when it was confirmed at
/// this very sync token.
pub open spec fn spec_retains(status: Status, token: Option<u64>, include_redundant: bool) -> bool {
    include_redundant || match status {
        Status::Unseen => true,
        Status::Seen(seen) => seen == 0 || token == Some(seen),
    }
}

/// What witnessing a member writes to its record.
pub fn next_record(status: Status, token: Option<u64>) -> (r: Option<u64>)
    ensures
        r == spec_next_record(status, token),
{
    match status {
        Status::Unseen => Some(0),
        Status::Seen(0) => Some(
            match token {
                Some(t) => t,
                None => 0,
            },
        ),
        Status::Seen(_) => None,
    }
}

/// Whether a member is sent.
pub fn retains(status: Status, token: Option<u64>, include_redundant: bool) -> (r: bool)
    ensures
        r == spec_retains(status, token, include_redundant),
{
    if include_redundant {
        return true;
    }
    match status {
        Status::Unseen => true,
        Status::Seen(seen) => seen == 0 || token == Some(seen),
    }
}

/// The status of member `k` in a record.
pub open spec fn status_in(m: Map<Seq<char>, u64>, k: Seq<char>) -> Status {
    if m.dom().contains(k) {
        Status::Seen(m[k])
    } else {
        Status::Unseen
    }
}

/// The record after the members `senders` were witnessed at `token`.
pub open spec fn witnessed(m: Map<Seq<char>, u64>, senders: Set<Seq<char>>, token: Option<u64>) -> Map<Seq<char>, u64> {
    Map::new(
        |k: Seq<char>| m.dom().contains(k) || senders.contains(k),
        |k: Seq<char>|
            if senders.contains(k) {
                match spec_next_record(status_in(m, k), token) {
                    Some(v) => v,
                    None => m[k],
                }
            } else {
                m[k]
            },
    )
}

/// Whether a redundant member is sent under these options.
pub open spec fn redundant_wanted(options: Option<LazyLoadOptions>) -> bool {
    options matches Some(LazyLoadOptions::Enabled { include_redundant_members }) && include_redundant_members
}

/// What one device has been told of one room's members.
#[derive(Debug)]
pub struct LazyLoadRecord {
    members: Vec<String>,
    seen: Vec<u64>,
}

impl LazyLoadRecord {
    /// The record as a map from member to token.
    pub closed spec fn view(&self) -> Map<Seq<char>, u64> {
        Map::new(
            |k: Seq<char>| exists|i: int| 0 <= i < self.members.len() && (#[trigger] self.members@[i])@ == k,
            |k: Seq<char>| self.seen@[choose|i: int| 0 <= i < self.members.len() && (#[trigger] self.members@[i])@ == k],
        )
    }

    /// Each member is recorded once.
    pub closed spec fn wf(&self) -> bool {
        &&& self.members.len() == self.seen.len()
        &&& forall|i: int, j: int| 0 <= i < j < self.members.len() ==> (#[trigger] self.members@[i])@ != (#[trigger] self.members@[j])@
    }

    /// An empty record.
    pub fn new() -> (r: Self)
        ensures
            r.wf(),
            r.view() == Map::<Seq<char>, u64>::empty(),
    {
        let r = LazyLoadRecord { members: Vec::new(), seen: Vec::new() };
        assert(r.view() =~= Map::<Seq<char>, u64>::empty());
        r
    }

    /// Forgets everything the device was told, which a sync from scratch
    /// does.
    pub fn reset(&mut self)
        ensures
            final(self).wf(),
            final(self).view() == Map::<Seq<char>, u64>::empty(),
    {
        *self = LazyLoadRecord::new();
    }

    proof fn lemma_index(&self, i: int)
        requires
            self.wf(),
            0 <= i < self.members.len(),
        ensures
            self.view().dom().contains(self.members@[i]@),
            self.view()[self.members@[i]@] == self.seen@[i],
    {
        let k = self.members@[i]@;
        let j = choose|j: int| 0 <= j < self.members.len() && (#[trigger] self.members@[j])@ == k;
        if j != i {
            if j < i {
                assert(self.members@[j]@ != self.members@[i]@);
            } else {
                assert(self.members@[i]@ != self.members@[j]@);
            }
        }
    }

    /// Where member `member` is recorded, if it is.
    fn find(&self, member: &String) -> (r: Option<usize>)
        requires
            self.wf(),
        ensures
            match r {
                Some(i) => i < self.members.len() && self.members@[i as int]@ == member@,
                None => !self.view().dom().contains(member@),
            },
    {
        let mut i: usize = 0;
        while i < self.members.len()
            invariant
                i <= self.members.len(),
                forall|j: int| 0 <= j < i ==> (#[trigger] self.members@[j])@ != member@,
            decreases self.members.len() - i,
        {
            if self.members[i] == *member {
                return Some(i);
            }
            i += 1;
        }
        None
    }

    /// What the record says of `member`.
    pub fn status(&self, member: &String) -> (r: Status)
        requires
            self.wf(),
        ensures
            r == status_in(self.view(), member@),
    {
        match self.find(member) {
            Some(i) => {
                proof {
                    self.lemma_index(i as int);
                }
                Status::Seen(self.seen[i])
            },
            None => Status::Unseen,
        }
    }

    /// Records `member` at `value`.
    fn put(&mut self, member: &String, value: u64)
        requires
            old(self).wf(),
        ensures
            final(self).wf(),
            final(self).view() == old(self).view().insert(member@, value),
    {
        match self.find(member) {
            Some(i) => {
                self.seen.set(i, value);
                proof {
                    assert forall|k: Seq<char>| #[trigger] self.view().dom().contains(k) <==> old(self).view().insert(member@, value).dom().contains(k) by {
                        if old(self).view().dom().contains(k) {
                            let j = choose|j: int| 0 <= j < old(self).members.len() && (#[trigger] old(self).members@[j])@ == k;
                            assert(self.members@[j]@ == k);
                        }
                        if self.view().dom().contains(k) {
                            let j = choose|j: int| 0 <= j < self.members.len() && (#[trigger] self.members@[j])@ == k;
                            assert(old(self).members@[j]@ == k);
                        }
                    }
                    assert forall|k: Seq<char>| #[trigger] self.view().dom().contains(k) implies self.view()[k] == old(self).view().insert(member@, value)[k] by {
                        let j = choose|j: int| 0 <= j < self.members.len() && (#[trigger] self.members@[j])@ == k;
                        self.lemma_index(j);
                        if k != member@ {
                            old(self).lemma_index(j);
                        }
                    }
                    assert(self.view() =~= old(self).view().insert(member@, value));
                }
            },
            None => {
                self.members.push(member.clone());
                self.seen.push(value);
                proof {
                    let n = old(self).members.len() as int;
                    assert(self.members@[n]@ == member@);
                    assert forall|i: int, j: int| 0 <= i < j < self.members.len() implies (#[trigger] self.members@[i])@ != (#[trigger] self.members@[j])@ by {
                        if j == n {
                            assert(old(self).view().dom().contains(old(self).members@[i]@)) by {
                                old(self).lemma_index(i);
                            }
                        } else {
                            assert(old(self).members@[i]@ != old(self).members@[j]@);
                        }
                    }
                    assert forall|k: Seq<char>| #[trigger] self.view().dom().contains(k) <==> old(self).view().insert(member@, value).dom().contains(k) by {
                        if old(self).view().dom().contains(k) {
                            let j = choose|j: int| 0 <= j < old(self).members.len() && (#[trigger] old(self).members@[j])@ == k;
                            assert(self.members@[j]@ == k);
                        }
                        if k == member@ {
                            assert(self.members@[n]@ == k);
                        }
                        if self.view().dom().contains(k) {
                            let j = choose|j: int| 0 <= j < self.members.len() && (#[trigger] self.members@[j])@ == k;
                            if j < n {
                                assert(old(self).members@[j]@ == k);
                            }
                        }
                    }
                    assert forall|k: Seq<char>| #[trigger] self.view().dom().contains(k) implies self.view()[k] == old(self).view().insert(member@, value)[k] by {
                        let j = choose|j: int| 0 <= j < self.members.len() && (#[trigger] self.members@[j])@ == k;
                        self.lemma_index(j);
                        if j < n {
                            old(self).lemma_index(j);
                        }
                    }
                    assert(self.view() =~= old(self).view().insert(member@, value));
                }
            },
        }
    }

    /// Keeps the senders a sync sends the membership of, and records what it
    /// sent: each sender's status decides whether it is kept and what is
    /// written for it.
    pub fn witness_retain(&mut self, senders: Vec<String>, token: Option<u64>, options: Option<LazyLoadOptions>) -> (r: Vec<String>)
        requires
            old(self).wf(),
            texts(senders@).no_duplicates(),
        ensures
            final(self).wf(),
            texts(r@) == texts(senders@).filter(|k: Seq<char>| spec_retains(status_in(old(self).view(), k), token, redundant_wanted(options))),
            final(self).view() == witnessed(old(self).view(), texts(senders@).to_set(), token),
    {
        let include_redundant = match &options {
            Some(o) => o.include_redundant_members(),
            None => false,
        };
        let ghost start = self.view();
        let ghost all = texts(senders@);
        let ghost keep = |k: Seq<char>| spec_retains(status_in(start, k), token, redundant_wanted(options));
        let mut kept: Vec<String> = Vec::new();
        let mut i: usize = 0;
        while i < senders.len()
            invariant
                self.wf(),
                i <= senders.len(),
                all == texts(senders@),
                all.no_duplicates(),
                include_redundant == redundant_wanted(options),
                keep == (|k: Seq<char>| spec_retains(status_in(start, k), token, redundant_wanted(options))),
                texts(kept@) == all.take(i as int).filter(keep),
                self.view() == witnessed(start, all.take(i as int).to_set(), token),
            decreases senders.len() - i,
        {
            let sender = &senders[i];
            let status = self.status(sender);
            proof {
                assert(all[i as int] == sender@);
                assert(!all.take(i as int).contains(sender@)) by {
                    if all.take(i as int).contains(sender@) {
                        let j = choose|j: int| 0 <= j < i && all.take(i as int)[j] == sender@;
                        assert(all[j] == all[i as int]);
                    }
                }
                assert(!all.take(i as int).to_set().contains(sender@));
                assert(status == status_in(start, sender@));
                assert(all.take(i + 1).drop_last() == all.take(i as int));
                reveal(Seq::filter);
            }
            if retains(status, token, include_redundant) {
                let ghost before = kept@;
                kept.push(sender.clone());
                proof {
                    assert(texts(kept@) == texts(before).push(sender@));
                }
            }
            let ghost mid = self.view();
            match next_record(status, token) {
                Some(value) => {
                    self.put(sender, value);
                },
                None => {},
            }
            proof {
                let done = all.take(i + 1).to_set();
                assert(all.take(i + 1) == all.take(i as int).push(sender@));
                assert(done == all.take(i as int).to_set().insert(sender@)) by {
                    all.take(i as int).lemma_push_to_set_commute(sender@);
                }
                assert(self.view() =~= witnessed(start, done, token));
            }
            i += 1;
        }
        proof {
            assert(all.take(i as int) == all);
        }
        kept
    }
}

/// Once a member is confirmed at a token, a sync re-sends it only at that
/// same token, or when redundant members are asked for; a member never sent is
/// always sent.
pub proof fn lemma_confirmed_members_are_not_resent(seen: u64, token: Option<u64>, include_redundant: bool)
    requires
        seen != 0,
    ensures
        spec_retains(Status::Seen(seen), token, include_redundant) <==> (include_redundant || token == Some(seen)),
        spec_retains(Status::Unseen, token, include_redundant),
{
}

/// A member is recorded by the first sync that sends it, unconfirmed, and
/// confirmed by the next one at that sync's token; after that its record no
/// longer changes.
pub proof fn lemma_witness_confirms(m: Map<Seq<char>, u64>, k: Seq<char>, t1: Option<u64>, t2: u64, t3: Option<u64>)
    requires
        !m.dom().contains(k),
        t2 != 0,
    ensures
        witnessed(m, set![k], t1)[k] == 0,
        witnessed(witnessed(m, set![k], t1), set![k], Some(t2))[k] == t2,
        witnessed(witnessed(witnessed(m, set![k], t1), set![k], Some(t2)), set![k], t3)[k] == t2,
{
}

} // verus!
