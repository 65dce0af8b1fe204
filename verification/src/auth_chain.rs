//! The auth chain of an event: every event authorizing it, transitively.
//!
//! Chains are held as short event ids, sorted and each once. The starting
//! events of a request are spread over a fixed number of buckets by their
//! short id, each bucket's chain is cached under the sorted short ids of its
//! events, and the request's chain is the union of the buckets' chains.

use std::collections::{BTreeSet, VecDeque};
use vstd::prelude::*;
use vstd::std_specs::btree::spec_btree_keys_iter;
use vstd::std_specs::cmp::OrdSpec;
use vstd::std_specs::iter::IteratorSpec;

verus! {

broadcast use vstd::std_specs::btree::group_btree_axioms, vstd::laws_cmp::group_laws_cmp;

/// How many buckets the starting events are spread over.
pub const NUM_BUCKETS: u64 = 50;

/// Whether a list is in strictly increasing order.
pub open spec fn increasing(s: Seq<u64>) -> bool {
    forall|i: int, j: int| 0 <= i < j < s.len() ==> s[i] < s[j]
}

/// The values of a set, in increasing order.
fn sorted_values(s: &BTreeSet<u64>) -> (v: Vec<u64>)
    ensures
        v@.to_set() == s@,
        increasing(v@),
{
    let ghost keys = spec_btree_keys_iter(s).remaining();
    proof {
        lemma_increasing_keys(keys);
    }
    let mut v: Vec<u64> = Vec::new();
    for e in it: s.iter()
        invariant
            it.seq() == keys,
            keys.unref().to_set() == s@,
            increasing(keys.unref()),
            v@ == keys.unref().take(it.index() as int),
    {
        v.push(*e);
        assert(keys.unref().take(it.index() + 1) =~= keys.unref().take(it.index() as int).push(*e));
    }
    assert(keys.unref().take(keys.len() as int) =~= keys.unref());
    v
}

/// The keys a set's iterator hands out come in increasing order.
proof fn lemma_increasing_keys(keys: Seq<&u64>)
    requires
        vstd::std_specs::btree::increasing_seq(keys),
    ensures
        increasing(keys.unref()),
{
    assert forall|i: int, j: int| 0 <= i < j < keys.len() implies keys.unref()[i] < keys.unref()[j] by {
        assert((&keys[i]).cmp_spec(&&keys[j]) is Less);
    }
}

/// The starting events' short ids that fall in bucket `b`: those whose
/// remainder by `NUM_BUCKETS` is `b`.
pub open spec fn in_bucket(shorts: Seq<u64>, b: u64) -> Set<u64> {
    shorts.to_set().filter(|s: u64| s % NUM_BUCKETS == b)
}

/// The cache keys of the buckets a request's starting events fall in: for
/// each bucket, its events' short ids, sorted and each once.
pub fn bucket_keys(shorts: &Vec<u64>) -> (r: Vec<Vec<u64>>)
    ensures
        r.len() == NUM_BUCKETS,
        forall|b: int| 0 <= b < NUM_BUCKETS ==> (#[trigger] r@[b])@.to_set() == in_bucket(shorts@, b as u64) && increasing(r@[b]@),
{
    let mut r: Vec<Vec<u64>> = Vec::new();
    let mut b: u64 = 0;
    while b < NUM_BUCKETS
        invariant
            b <= NUM_BUCKETS,
            r.len() == b,
            forall|c: int| 0 <= c < b ==> (#[trigger] r@[c])@.to_set() == in_bucket(shorts@, c as u64) && increasing(r@[c]@),
        decreases NUM_BUCKETS - b,
    {
        let mut set: BTreeSet<u64> = BTreeSet::new();
        let mut i: usize = 0;
        while i < shorts.len()
            invariant
                i <= shorts.len(),
                b < NUM_BUCKETS,
                set@ == shorts@.take(i as int).to_set().filter(|s: u64| s % NUM_BUCKETS == b),
            decreases shorts.len() - i,
        {
            let s = shorts[i];
            proof {
                assert(shorts@.take(i + 1) == shorts@.take(i as int).push(s));
                shorts@.take(i as int).lemma_push_to_set_commute(s);
            }
            if s % NUM_BUCKETS == b {
                set.insert(s);
            }
            proof {
                assert(set@ =~= shorts@.take(i + 1).to_set().filter(|s: u64| s % NUM_BUCKETS == b));
            }
            i += 1;
        }
        proof {
            assert(shorts@.take(i as int) == shorts@);
        }
        let keys = sorted_values(&set);
        r.push(keys);
        b += 1;
    }
    r
}

/// Every value of the lists of `lists`.
pub open spec fn all_values(lists: Seq<Seq<u64>>) -> Set<u64> {
    Set::new(|x: u64| exists|i: int| 0 <= i < lists.len() && (#[trigger] lists[i]).contains(x))
}

/// The union of some chains: every short id in any of them, sorted and each
/// once.
pub fn union_of_chains(chains: &Vec<Vec<u64>>) -> (r: Vec<u64>)
    ensures
        r@.to_set() == all_values(chains@.map_values(|c: Vec<u64>| c@)),
        increasing(r@),
{
    let ghost lists = chains@.map_values(|c: Vec<u64>| c@);
    let mut set: BTreeSet<u64> = BTreeSet::new();
    let mut i: usize = 0;
    while i < chains.len()
        invariant
            i <= chains.len(),
            lists == chains@.map_values(|c: Vec<u64>| c@),
            set@ == all_values(lists.take(i as int)),
        decreases chains.len() - i,
    {
        let chain = &chains[i];
        let ghost base = set@;
        let mut j: usize = 0;
        while j < chain.len()
            invariant
                j <= chain.len(),
                set@ == base + chain@.take(j as int).to_set(),
            decreases chain.len() - j,
        {
            set.insert(chain[j]);
            proof {
                assert(chain@.take(j + 1) == chain@.take(j as int).push(chain@[j as int]));
                chain@.take(j as int).lemma_push_to_set_commute(chain@[j as int]);
                assert(set@ =~= base + chain@.take(j + 1).to_set());
            }
            j += 1;
        }
        proof {
            assert(chain@.take(j as int) == chain@);
            assert(lists[i as int] == chain@);
            assert(set@ =~= all_values(lists.take(i + 1))) by {
                assert forall|x: u64| set@.contains(x) <==> all_values(lists.take(i + 1)).contains(x) by {
                    if base.contains(x) {
                        let k = choose|k: int| 0 <= k < i && (#[trigger] lists.take(i as int)[k]).contains(x);
                        assert(lists.take(i + 1)[k] == lists.take(i as int)[k]);
                    }
                    if chain@.to_set().contains(x) {
                        assert(lists.take(i + 1)[i as int] == chain@);
                    }
                    if all_values(lists.take(i + 1)).contains(x) {
                        let k = choose|k: int| 0 <= k < i + 1 && (#[trigger] lists.take(i + 1)[k]).contains(x);
                        if k < i {
                            assert(lists.take(i as int)[k] == lists.take(i + 1)[k]);
                        }
                    }
                }
            }
        }
        i += 1;
    }
    proof {
        assert(lists.take(i as int) == lists);
    }
    sorted_values(&set)
}

/// The breadth-first walk through the auth events of one event, which queues
/// each auth event once.
#[derive(Debug)]
pub struct AuthChainWalk {
    todo: VecDeque<String>,
    found: BTreeSet<u64>,
}

impl AuthChainWalk {
    /// The short ids found so far.
    pub closed spec fn found(&self) -> Set<u64> {
        self.found@
    }

    /// The events still to look at, the next one first.
    pub closed spec fn queue(&self) -> Seq<String> {
        self.todo@
    }

    /// A walk from `event_id`.
    pub fn new(event_id: String) -> (r: Self)
        ensures
            r.found() == Set::<u64>::empty(),
            r.queue() == seq![event_id],
    {
        let mut todo: VecDeque<String> = VecDeque::new();
        todo.push_back(event_id);
        AuthChainWalk { todo, found: BTreeSet::new() }
    }

    /// The next event to look at, if any is left.
    pub fn next_event(&mut self) -> (r: Option<String>)
        ensures
            final(self).found() == old(self).found(),
            match r {
                Some(e) => old(self).queue().len() > 0 && e == old(self).queue()[0] && final(self).queue() == old(self).queue().drop_first(),
                None => old(self).queue().len() == 0 && final(self).queue() == old(self).queue(),
            },
    {
        self.todo.pop_front()
    }

    /// Reports an auth event of the event being looked at, with its short id:
    /// it is queued unless it was found before.
    pub fn offer(&mut self, short: u64, auth_event: String)
        ensures
            final(self).found() == old(self).found().insert(short),
            final(self).queue() == if old(self).found().contains(short) {
                old(self).queue()
            } else {
                old(self).queue().push(auth_event)
            },
    {
        if self.found.insert(short) {
            self.todo.push_back(auth_event);
        }
    }

    /// The chain found, sorted.
    pub fn chain(&self) -> (r: Vec<u64>)
        ensures
            r@.to_set() == self.found(),
            increasing(r@),
    {
        sorted_values(&self.found)
    }
}

} // verus!
