//! Who is typing in a room.
//!
//! Each room keeps the users typing in it, each with the time its typing
//! expires, in the order of their ids, and the count of the last change, which
//! a sync compares against to tell whether there is news.

use crate::text_order::{compare_texts, lemma_text_lt_total, lemma_text_lt_transitive, strictly_sorted, text_lt, texts, TextOrder};
use vstd::prelude::*;

verus! {

/// Where a user is, or would go, in a sorted list of users.
enum Slot {
    /// At this index.
    At(usize),
    /// Not there; it would go at this index.
    Before(usize),
}

/// The typing users of one room.
#[derive(Debug)]
pub struct RoomTyping {
    names: Vec<String>,
    timeouts: Vec<u64>,
    update: u64,
}

impl RoomTyping {
    /// The count of the last change.
    pub closed spec fn last_update(&self) -> u64 {
        self.update
    }

    /// The count of the last change.
    pub fn update(&self) -> (r: u64)
        ensures
            r == self.last_update(),
    {
        self.update
    }

    /// The users typing, in the order of their ids.
    pub closed spec fn users(&self) -> Seq<Seq<char>> {
        texts(self.names@)
    }

    /// When each typing user's typing expires.
    pub closed spec fn timeouts(&self) -> Map<Seq<char>, u64> {
        Map::new(
            |k: Seq<char>| texts(self.names@).contains(k),
            |k: Seq<char>| self.timeouts@[texts(self.names@).index_of(k)],
        )
    }

    /// The lists agree, and the users are in order, each once.
    pub closed spec fn wf(&self) -> bool {
        &&& self.names.len() == self.timeouts.len()
        &&& strictly_sorted(texts(self.names@))
    }

    /// A room where nobody types.
    pub fn new() -> (r: Self)
        ensures
            r.wf(),
            r.users().len() == 0,
            r.timeouts() == Map::<Seq<char>, u64>::empty(),
            r.last_update() == 0,
    {
        let r = RoomTyping { names: Vec::new(), timeouts: Vec::new(), update: 0 };
        assert(r.timeouts() =~= Map::<Seq<char>, u64>::empty());
        r
    }

    proof fn lemma_distinct(&self, i: int, j: int)
        requires
            self.wf(),
            0 <= i < self.names.len(),
            0 <= j < self.names.len(),
            i != j,
        ensures
            self.names@[i]@ != self.names@[j]@,
    {
        let names = texts(self.names@);
        assert(names[i] == self.names@[i]@ && names[j] == self.names@[j]@);
        if i < j {
            assert(text_lt(names[i], names[j]));
        } else {
            assert(text_lt(names[j], names[i]));
        }
        lemma_text_lt_total(names[i], names[i]);
    }

    proof fn lemma_at(&self, i: int)
        requires
            self.wf(),
            0 <= i < self.names.len(),
        ensures
            self.timeouts().dom().contains(self.names@[i]@),
            self.timeouts()[self.names@[i]@] == self.timeouts@[i],
    {
        let names = texts(self.names@);
        let k = self.names@[i]@;
        assert(names[i] == k);
        let j = names.index_of(k);
        assert(0 <= j < names.len() && names[j] == k);
        if j != i {
            self.lemma_distinct(i, j);
        }
    }

    /// Where `user` is, or would go.
    fn slot(&self, user: &String) -> (r: Slot)
        requires
            self.wf(),
        ensures
            match r {
                Slot::At(i) => i < self.names.len() && self.names@[i as int]@ == user@,
                Slot::Before(i) => {
                    &&& i <= self.names.len()
                    &&& forall|j: int| 0 <= j < i ==> text_lt(#[trigger] texts(self.names@)[j], user@)
                    &&& i < self.names.len() ==> text_lt(user@, texts(self.names@)[i as int])
                    &&& !self.users().contains(user@)
                },
            },
    {
        let ghost names = texts(self.names@);
        let mut i: usize = 0;
        while i < self.names.len()
            invariant
                i <= self.names.len(),
                names == texts(self.names@),
                strictly_sorted(names),
                forall|j: int| 0 <= j < i ==> text_lt(#[trigger] names[j], user@),
            decreases self.names.len() - i,
        {
            match compare_texts(self.names[i].as_str(), user.as_str()) {
                TextOrder::Before => {
                    proof {
                        assert(names[i as int] == self.names@[i as int]@);
                    }
                    i += 1;
                },
                TextOrder::Same => {
                    return Slot::At(i);
                },
                TextOrder::After => {
                    proof {
                        assert(names[i as int] == self.names@[i as int]@);
                        assert forall|j: int| 0 <= j < names.len() implies names[j] != user@ by {
                            if j < i {
                                lemma_text_lt_total(names[j], user@);
                            } else if j > i {
                                lemma_text_lt_transitive(user@, names[i as int], names[j]);
                                lemma_text_lt_total(user@, user@);
                            } else {
                                lemma_text_lt_total(user@, names[j]);
                            }
                        }
                    }
                    return Slot::Before(i);
                },
            }
        }
        proof {
            assert forall|j: int| 0 <= j < names.len() implies names[j] != user@ by {
                lemma_text_lt_total(names[j], user@);
            }
        }
        Slot::Before(i)
    }

    /// The timeout of a typing user.
    pub fn timeout_of(&self, user: &String) -> (r: Option<u64>)
        requires
            self.wf(),
        ensures
            r == if self.timeouts().dom().contains(user@) { Some(self.timeouts()[user@]) } else { None::<u64> },
    {
        match self.slot(user) {
            Slot::At(i) => {
                proof {
                    self.lemma_at(i as int);
                }
                Some(self.timeouts[i])
            },
            Slot::Before(_) => None,
        }
    }

    /// Records that `user` types until `timeout`, a change counted `count`.
    pub fn typing_add(&mut self, user: String, timeout: u64, count: u64)
        requires
            old(self).wf(),
        ensures
            final(self).wf(),
            final(self).timeouts() == old(self).timeouts().insert(user@, timeout),
            final(self).last_update() == count,
    {
        let ghost names0 = texts(self.names@);
        let ghost uv = user@;
        match self.slot(&user) {
            Slot::At(i) => {
                self.timeouts.set(i, timeout);
                proof {
                    assert(texts(self.names@) == names0);
                    assert forall|k: Seq<char>| #[trigger] self.timeouts().dom().contains(k) implies self.timeouts()[k] == old(self).timeouts().insert(uv, timeout)[k] by {
                        let j = choose|j: int| 0 <= j < self.names.len() && (#[trigger] self.names@[j])@ == k;
                        assert(texts(self.names@)[j] == k);
                        self.lemma_at(j);
                        if k != uv {
                            old(self).lemma_at(j);
                        } else {
                            self.lemma_at(i as int);
                        }
                    }
                    assert(self.timeouts().dom() =~= old(self).timeouts().insert(uv, timeout).dom()) by {
                        assert(names0[i as int] == uv);
                    }
                    assert(self.timeouts() =~= old(self).timeouts().insert(uv, timeout));
                }
            },
            Slot::Before(i) => {
                self.names.insert(i, user);
                self.timeouts.insert(i, timeout);
                proof {
                    let names1 = texts(self.names@);
                    assert(names1 == names0.insert(i as int, uv));
                    assert forall|a: int, b: int| 0 <= a < b < names1.len() implies text_lt(#[trigger] names1[a], #[trigger] names1[b]) by {
                        if b < i {
                            assert(names1[a] == names0[a] && names1[b] == names0[b]);
                        } else if b == i {
                            assert(names1[a] == names0[a]);
                        } else if a == i {
                            assert(names1[b] == names0[b - 1]);
                            if b - 1 > i {
                                lemma_text_lt_transitive(uv, names0[i as int], names0[b - 1]);
                            }
                        } else if a < i {
                            assert(names1[a] == names0[a] && names1[b] == names0[b - 1]);
                        } else {
                            assert(names1[a] == names0[a - 1] && names1[b] == names0[b - 1]);
                        }
                    }
                    assert forall|k: Seq<char>| #[trigger] self.timeouts().dom().contains(k) <==> old(self).timeouts().insert(uv, timeout).dom().contains(k) by {
                        if names1.contains(k) {
                            let j = choose|j: int| 0 <= j < names1.len() && names1[j] == k;
                            if j < i {
                                assert(names0[j] == k);
                            } else if j > i {
                                assert(names0[j - 1] == k);
                            }
                        }
                        if names0.contains(k) {
                            let j = choose|j: int| 0 <= j < names0.len() && names0[j] == k;
                            if j < i {
                                assert(names1[j] == k);
                            } else {
                                assert(names1[j + 1] == k);
                            }
                        }
                        if k == uv {
                            assert(names1[i as int] == k);
                        }
                    }
                    assert forall|k: Seq<char>| #[trigger] self.timeouts().dom().contains(k) implies self.timeouts()[k] == old(self).timeouts().insert(uv, timeout)[k] by {
                        let j = choose|j: int| 0 <= j < self.names.len() && (#[trigger] self.names@[j])@ == k;
                        assert(names1[j] == k);
                        self.lemma_at(j);
                        if j < i {
                            assert(old(self).names@[j] == self.names@[j]);
                            old(self).lemma_at(j);
                        } else if j > i {
                            assert(old(self).names@[j - 1] == self.names@[j]);
                            old(self).lemma_at(j - 1);
                        }
                    }
                    assert(self.timeouts() =~= old(self).timeouts().insert(uv, timeout));
                }
            },
        }
        self.update = count;
    }

    /// Records that `user` stopped typing, a change counted `count`.
    pub fn typing_remove(&mut self, user: &String, count: u64)
        requires
            old(self).wf(),
        ensures
            final(self).wf(),
            final(self).timeouts() == old(self).timeouts().remove(user@),
            final(self).last_update() == count,
    {
        let ghost names0 = texts(self.names@);
        match self.slot(user) {
            Slot::At(i) => {
                self.names.remove(i);
                self.timeouts.remove(i);
                proof {
                    let names1 = texts(self.names@);
                    assert(names1 == names0.remove(i as int));
                    assert forall|a: int, b: int| 0 <= a < b < names1.len() implies text_lt(#[trigger] names1[a], #[trigger] names1[b]) by {
                        if b < i {
                            assert(names1[a] == names0[a] && names1[b] == names0[b]);
                        } else if a < i {
                            assert(names1[a] == names0[a] && names1[b] == names0[b + 1]);
                        } else {
                            assert(names1[a] == names0[a + 1] && names1[b] == names0[b + 1]);
                        }
                    }
                    assert forall|k: Seq<char>| #[trigger] self.timeouts().dom().contains(k) <==> old(self).timeouts().remove(user@).dom().contains(k) by {
                        if names1.contains(k) {
                            let j = choose|j: int| 0 <= j < names1.len() && names1[j] == k;
                            if j < i {
                                assert(names0[j] == k);
                                assert(text_lt(names0[j], names0[i as int]));
                            } else {
                                assert(names0[j + 1] == k);
                                assert(text_lt(names0[i as int], names0[j + 1]));
                            }
                            lemma_text_lt_total(k, k);
                        }
                        if names0.contains(k) && k != user@ {
                            let j = choose|j: int| 0 <= j < names0.len() && names0[j] == k;
                            if j < i {
                                assert(names1[j] == k);
                            } else {
                                assert(j != i);
                                assert(names1[j - 1] == k);
                            }
                        }
                    }
                    assert forall|k: Seq<char>| #[trigger] self.timeouts().dom().contains(k) implies self.timeouts()[k] == old(self).timeouts().remove(user@)[k] by {
                        let j = choose|j: int| 0 <= j < self.names.len() && (#[trigger] self.names@[j])@ == k;
                        assert(names1[j] == k);
                        self.lemma_at(j);
                        if j < i {
                            assert(old(self).names@[j] == self.names@[j]);
                            old(self).lemma_at(j);
                        } else {
                            assert(old(self).names@[j + 1] == self.names@[j]);
                            old(self).lemma_at(j + 1);
                        }
                    }
                    assert(self.timeouts() =~= old(self).timeouts().remove(user@));
                }
            },
            Slot::Before(_) => {
                proof {
                    assert(self.timeouts() =~= old(self).timeouts().remove(user@));
                }
            },
        }
        self.update = count;
    }

    /// The users typing, in the order of their ids.
    pub fn typing_users(&self) -> (r: Vec<String>)
        ensures
            texts(r@) == self.users(),
    {
        let mut r: Vec<String> = Vec::new();
        let mut i: usize = 0;
        while i < self.names.len()
            invariant
                i <= self.names.len(),
                texts(r@) == texts(self.names@).take(i as int),
            decreases self.names.len() - i,
        {
            let ghost before = texts(r@);
            r.push(self.names[i].clone());
            proof {
                assert(texts(r@) == before.push(self.names@[i as int]@));
                assert(texts(self.names@).take(i + 1) == texts(self.names@).take(i as int).push(self.names@[i as int]@));
            }
            i += 1;
        }
        proof {
            assert(texts(self.names@).take(i as int) == texts(self.names@));
        }
        r
    }

    /// Drops the users whose typing expired before `now`, and names them, in
    /// the order of their ids. The count of the change is the caller's to
    /// record when anyone was dropped.
    pub fn expire(&mut self, now: u64) -> (removed: Vec<String>)
        requires
            old(self).wf(),
        ensures
            final(self).wf(),
            final(self).last_update() == old(self).last_update(),
            forall|k: Seq<char>| #[trigger] final(self).timeouts().dom().contains(k) <==> old(self).timeouts().dom().contains(k) && old(self).timeouts()[k] >= now,
            forall|k: Seq<char>| #[trigger] final(self).timeouts().dom().contains(k) ==> final(self).timeouts()[k] == old(self).timeouts()[k],
            forall|k: Seq<char>| #[trigger] final(self).timeouts().dom().contains(k) ==> final(self).timeouts()[k] >= now,
            forall|k: Seq<char>| #[trigger] texts(removed@).contains(k) <==> old(self).timeouts().dom().contains(k) && old(self).timeouts()[k] < now,
            strictly_sorted(texts(removed@)),
    {
        let ghost start = *self;
        let mut names: Vec<String> = Vec::new();
        let mut timeouts: Vec<u64> = Vec::new();
        let mut removed: Vec<String> = Vec::new();
        let ghost mut kept_from: Seq<int> = Seq::empty();
        let ghost mut removed_from: Seq<int> = Seq::empty();
        let mut i: usize = 0;
        while i < self.names.len()
            invariant
                *self == start,
                start.wf(),
                i <= self.names.len(),
                names.len() == timeouts.len(),
                strictly_sorted(texts(names@)),
                strictly_sorted(texts(removed@)),
                kept_from.len() == names.len(),
                removed_from.len() == removed.len(),
                forall|a: int| 0 <= a < names.len() ==> 0 <= #[trigger] kept_from[a] < i && names@[a]@ == self.names@[kept_from[a]]@
                    && timeouts@[a] == self.timeouts@[kept_from[a]] && self.timeouts@[kept_from[a]] >= now,
                forall|j: int| 0 <= j < i && self.timeouts@[j] >= now ==> texts(names@).contains((#[trigger] self.names@[j])@),
                forall|a: int| 0 <= a < removed.len() ==> 0 <= #[trigger] removed_from[a] < i && removed@[a]@ == self.names@[removed_from[a]]@
                    && self.timeouts@[removed_from[a]] < now,
                forall|j: int| 0 <= j < i && self.timeouts@[j] < now ==> texts(removed@).contains((#[trigger] self.names@[j])@),
                forall|a: int, j: int| 0 <= a < names.len() && i <= j < self.names.len() ==> text_lt(#[trigger] texts(names@)[a], #[trigger] texts(self.names@)[j]),
                forall|a: int, j: int| 0 <= a < removed.len() && i <= j < self.names.len() ==> text_lt(#[trigger] texts(removed@)[a], #[trigger] texts(self.names@)[j]),
            decreases self.names.len() - i,
        {
            let ghost all = texts(self.names@);
            if self.timeouts[i] >= now {
                let ghost before = names@;
                names.push(self.names[i].clone());
                timeouts.push(self.timeouts[i]);
                proof {
                    assert(texts(names@) == texts(before).push(all[i as int]));
                    assert forall|a: int, b: int| 0 <= a < b < names.len() implies text_lt(#[trigger] texts(names@)[a], #[trigger] texts(names@)[b]) by {
                        if b == names.len() - 1 {
                            assert(texts(names@)[a] == texts(before)[a]);
                        } else {
                            assert(texts(names@)[a] == texts(before)[a] && texts(names@)[b] == texts(before)[b]);
                        }
                    }
                    assert forall|a: int, j: int| 0 <= a < names.len() && i + 1 <= j < self.names.len() implies text_lt(#[trigger] texts(names@)[a], #[trigger] texts(self.names@)[j]) by {
                        if a == names.len() - 1 {
                            assert(texts(names@)[a] == all[i as int]);
                        } else {
                            assert(texts(names@)[a] == texts(before)[a]);
                        }
                    }
                    kept_from = kept_from.push(i as int);
                    assert forall|j: int| 0 <= j < i + 1 && self.timeouts@[j] >= now implies texts(names@).contains((#[trigger] self.names@[j])@) by {
                        if j == i {
                            assert(texts(names@)[names.len() - 1] == self.names@[j]@);
                        } else {
                            let a = choose|a: int| 0 <= a < texts(before).len() && texts(before)[a] == self.names@[j]@;
                            assert(texts(names@)[a] == self.names@[j]@);
                        }
                    }
                }
            } else {
                let ghost before = removed@;
                removed.push(self.names[i].clone());
                proof {
                    assert(texts(removed@) == texts(before).push(all[i as int]));
                    assert forall|a: int, b: int| 0 <= a < b < removed.len() implies text_lt(#[trigger] texts(removed@)[a], #[trigger] texts(removed@)[b]) by {
                        if b == removed.len() - 1 {
                            assert(texts(removed@)[a] == texts(before)[a]);
                        } else {
                            assert(texts(removed@)[a] == texts(before)[a] && texts(removed@)[b] == texts(before)[b]);
                        }
                    }
                    assert forall|a: int, j: int| 0 <= a < removed.len() && i + 1 <= j < self.names.len() implies text_lt(#[trigger] texts(removed@)[a], #[trigger] texts(self.names@)[j]) by {
                        if a == removed.len() - 1 {
                            assert(texts(removed@)[a] == all[i as int]);
                        } else {
                            assert(texts(removed@)[a] == texts(before)[a]);
                        }
                    }
                    removed_from = removed_from.push(i as int);
                    assert forall|j: int| 0 <= j < i + 1 && self.timeouts@[j] < now implies texts(removed@).contains((#[trigger] self.names@[j])@) by {
                        if j == i {
                            assert(texts(removed@)[removed.len() - 1] == self.names@[j]@);
                        } else {
                            let a = choose|a: int| 0 <= a < texts(before).len() && texts(before)[a] == self.names@[j]@;
                            assert(texts(removed@)[a] == self.names@[j]@);
                        }
                    }
                }
            }
            i += 1;
        }
        let ghost old_names = self.names@;
        let ghost old_timeouts = self.timeouts@;
        self.names = names;
        self.timeouts = timeouts;
        proof {
            assert forall|j: int| 0 <= j < old_names.len() implies start.timeouts().dom().contains(#[trigger] old_names[j]@) && start.timeouts()[old_names[j]@] == old_timeouts[j] by {
                start.lemma_at(j);
            }
            assert forall|k: Seq<char>| #[trigger] self.timeouts().dom().contains(k) <==> start.timeouts().dom().contains(k) && start.timeouts()[k] >= now by {
                if self.timeouts().dom().contains(k) {
                    let a = choose|a: int| 0 <= a < texts(self.names@).len() && texts(self.names@)[a] == k;
                    assert(self.names@[a]@ == k);
                    let j = kept_from[a];
                    assert(start.timeouts().dom().contains(old_names[j]@));
                }
                if start.timeouts().dom().contains(k) && start.timeouts()[k] >= now {
                    let j = choose|j: int| 0 <= j < texts(old_names).len() && texts(old_names)[j] == k;
                    assert(old_names[j]@ == k);
                    assert(start.timeouts()[old_names[j]@] == old_timeouts[j]);
                    assert(texts(self.names@).contains((old_names[j])@));
                }
            }
            assert forall|k: Seq<char>| #[trigger] self.timeouts().dom().contains(k) implies self.timeouts()[k] == start.timeouts()[k] by {
                let a = choose|a: int| 0 <= a < self.names.len() && (#[trigger] self.names@[a])@ == k;
                self.lemma_at(a);
                let j = kept_from[a];
                assert(old_names[j]@ == k);
            }
            assert forall|k: Seq<char>| #[trigger] texts(removed@).contains(k) <==> start.timeouts().dom().contains(k) && start.timeouts()[k] < now by {
                if texts(removed@).contains(k) {
                    let a = choose|a: int| 0 <= a < texts(removed@).len() && texts(removed@)[a] == k;
                    assert(removed@[a]@ == k);
                    let j = removed_from[a];
                    assert(start.timeouts().dom().contains(old_names[j]@));
                }
                if start.timeouts().dom().contains(k) && start.timeouts()[k] < now {
                    let j = choose|j: int| 0 <= j < texts(old_names).len() && texts(old_names)[j] == k;
                    assert(old_names[j]@ == k);
                    assert(start.timeouts()[old_names[j]@] == old_timeouts[j]);
                }
            }
        }
        removed
    }
}

/// The typing users a user is shown: all of them, less those the user
/// ignores, where the user has an ignore list.
pub fn filter_ignored(users: Vec<String>, ignored: Option<Vec<String>>) -> (r: Vec<String>)
    ensures
        texts(r@) == match ignored {
            Some(list) => texts(users@).filter(|u: Seq<char>| !texts(list@).contains(u)),
            None => texts(users@),
        },
{
    let list = match ignored {
        Some(list) => list,
        None => return users,
    };
    let ghost all = texts(users@);
    let ghost keep = |u: Seq<char>| !texts(list@).contains(u);
    let mut r: Vec<String> = Vec::new();
    let mut i: usize = 0;
    while i < users.len()
        invariant
            i <= users.len(),
            all == texts(users@),
            keep == (|u: Seq<char>| !texts(list@).contains(u)),
            texts(r@) == all.take(i as int).filter(keep),
        decreases users.len() - i,
    {
        let mut listed = false;
        let mut j: usize = 0;
        while j < list.len()
            invariant
                j <= list.len(),
                i < users.len(),
                listed <==> exists|m: int| 0 <= m < j && (#[trigger] list@[m])@ == users@[i as int]@,
            decreases list.len() - j,
        {
            if list[j] == users[i] {
                listed = true;
            }
            proof {
                if listed && !(list@[j as int]@ == users@[i as int]@) {
                    let m = choose|m: int| 0 <= m < j && (#[trigger] list@[m])@ == users@[i as int]@;
                    assert(0 <= m < j + 1);
                }
            }
            j += 1;
        }
        proof {
            let u = users@[i as int]@;
            if listed {
                let m = choose|m: int| 0 <= m < j && (#[trigger] list@[m])@ == u;
                assert(texts(list@)[m] == u);
            } else {
                assert(!texts(list@).contains(u)) by {
                    if texts(list@).contains(u) {
                        let m = choose|m: int| 0 <= m < texts(list@).len() && texts(list@)[m] == u;
                        assert(list@[m]@ == u);
                    }
                }
            }
            assert(all.take(i + 1).drop_last() == all.take(i as int));
            assert(all.take(i + 1).last() == u);
            reveal(Seq::filter);
        }
        if !listed {
            let ghost before = texts(r@);
            r.push(users[i].clone());
            proof {
                assert(texts(r@) == before.push(users@[i as int]@));
            }
        }
        i += 1;
    }
    proof {
        assert(all.take(i as int) == all);
    }
    r
}

} // verus!
