//! Relations between events, and the walk that collects an event's
//! relations and theirs, down to a depth and up to a count.

use vstd::prelude::*;

verus! {

/// Where an event stands in a room's timeline.
#[derive(Debug, Clone, Copy, PartialEq, Eq, Structural)]
pub enum PduCount {
    /// Appended in order, at this count.
    Normal(u64),
    /// Fetched from before the room's history here, at this (negative) count.
    Backfilled(i64),
}

/// The count relations are keyed by: a backfilled event's is zero.
pub fn unsigned_count(count: PduCount) -> (r: u64)
    ensures
        r == match count {
            PduCount::Normal(c) => c,
            PduCount::Backfilled(_) => 0,
        },
{
    match count {
        PduCount::Normal(c) => c,
        PduCount::Backfilled(_) => 0,
    }
}

/// The relation recorded between two events, if any: only between two
/// events appended in order.
pub fn relation_to_record(from: PduCount, to: PduCount) -> (r: Option<(u64, u64)>)
    ensures
        r == match (from, to) {
            (PduCount::Normal(f), PduCount::Normal(t)) => Some((f, t)),
            _ => None::<(u64, u64)>,
        },
{
    match (from, to) {
        (PduCount::Normal(f), PduCount::Normal(t)) => Some((f, t)),
        _ => None,
    }
}

/// The walk through an event's relations: the events found so far, and
/// the ones whose own relations are still to be looked up, with their depth.
#[derive(Debug)]
pub struct RelationWalk {
    /// The events found, in the order found.
    pub found: Vec<PduCount>,
    /// The events whose relations are still to be looked up, next last, with
    /// the depth each was found at.
    pub stack: Vec<(PduCount, u8)>,
    /// The most events to find.
    pub limit: usize,
    /// How deep to look.
    pub max_depth: u8,
    /// Whether the limit was reached.
    pub full: bool,
}

/// The steps that the first `n` relations found at `depth` add to the walk,
/// where `depth` is not yet `max_depth`: each to be looked into one deeper.
pub open spec fn deeper_steps(relations: Seq<PduCount>, n: int, depth: u8, max_depth: u8) -> Seq<(PduCount, u8)> {
    if depth < max_depth {
        Seq::new(n as nat, |i: int| (relations[i], (depth + 1) as u8))
    } else {
        Seq::empty()
    }
}

impl RelationWalk {
    /// What every walk keeps: until the walk is full it holds no more than
    /// `limit` events, and it fills up on the event that reaches the limit, or
    /// on the first one it adds where the first relations already filled it;
    /// nothing deeper than `max_depth` is looked into.
    pub open spec fn wf(&self) -> bool {
        &&& !self.full ==> self.found.len() <= self.limit
        &&& self.found.len() <= self.limit + 1
        &&& forall|i: int| 0 <= i < self.stack.len() ==> 1 <= (#[trigger] self.stack@[i]).1 <= self.max_depth
    }

    /// A walk from the direct relations of the target, already cut to
    /// `limit`: each of them is looked into further where `max_depth` allows.
    pub fn new(first: Vec<PduCount>, limit: usize, max_depth: u8) -> (r: Self)
        requires
            first.len() <= limit,
        ensures
            r.wf(),
            r.found@ == first@,
            r.stack@.len() == if max_depth > 0 { first@.len() } else { 0 },
            forall|i: int| 0 <= i < r.stack@.len() ==> (#[trigger] r.stack@[i]) == (first@[i], 1u8),
            r.limit == limit,
            r.max_depth == max_depth,
            !r.full,
    {
        let mut stack: Vec<(PduCount, u8)> = Vec::new();
        if max_depth > 0 {
            let mut i: usize = 0;
            while i < first.len()
                invariant
                    i <= first.len(),
                    max_depth > 0,
                    stack@.len() == i,
                    forall|j: int| 0 <= j < i ==> (#[trigger] stack@[j]) == (first@[j], 1u8),
                decreases first.len() - i,
            {
                stack.push((first[i], 1));
                i += 1;
            }
        }
        RelationWalk { found: first, stack, limit, max_depth, full: false }
    }

    /// The next event whose relations are to be looked up, with its depth;
    /// none once the walk is over.
    pub fn next_target(&mut self) -> (r: Option<(PduCount, u8)>)
        requires
            old(self).wf(),
        ensures
            final(self).wf(),
            final(self).found@ == old(self).found@,
            final(self).limit == old(self).limit,
            final(self).max_depth == old(self).max_depth,
            final(self).full == old(self).full,
            match r {
                Some(t) => !old(self).full && old(self).stack@.len() > 0 && t == old(self).stack@.last()
                    && final(self).stack@ == old(self).stack@.drop_last(),
                None => old(self).full || old(self).stack@.len() == 0,
            },
    {
        if self.full {
            return None;
        }
        self.stack.pop()
    }

    /// Takes in the relations of an event found at `depth`: each is found in
    /// turn, and looked into further where it is not yet at `max_depth`, and
    /// the walk is full as soon as it holds `limit` events or more.
    pub fn add_relations(&mut self, depth: u8, relations: &Vec<PduCount>)
        requires
            old(self).wf(),
            !old(self).full,
            1 <= depth <= old(self).max_depth,
        ensures
            final(self).wf(),
            final(self).limit == old(self).limit,
            final(self).max_depth == old(self).max_depth,
            ({
                let n = final(self).found@.len() - old(self).found@.len();
                &&& 0 <= n <= relations@.len()
                &&& final(self).found@ == old(self).found@ + relations@.take(n)
                &&& final(self).full == (n > 0 && old(self).found@.len() + n >= old(self).limit)
                &&& final(self).full ==> (n == 1 || old(self).found@.len() + n - 1 < old(self).limit)
                &&& !final(self).full ==> n == relations@.len()
                &&& final(self).stack@ == old(self).stack@ + deeper_steps(relations@, n, depth, old(self).max_depth)
            }),
    {
        let mut i: usize = 0;
        proof {
            assert(deeper_steps(relations@, 0, depth, old(self).max_depth) =~= Seq::<(PduCount, u8)>::empty());
            assert(old(self).stack@ + Seq::<(PduCount, u8)>::empty() =~= old(self).stack@);
        }
        while i < relations.len()
            invariant
                self.wf(),
                !self.full,
                1 <= depth <= self.max_depth,
                i <= relations.len(),
                self.limit == old(self).limit,
                self.max_depth == old(self).max_depth,
                self.found@ == old(self).found@ + relations@.take(i as int),
                i > 0 ==> old(self).found@.len() + i < old(self).limit,
                self.stack@ == old(self).stack@ + deeper_steps(relations@, i as int, depth, old(self).max_depth),
            decreases relations.len() - i,
        {
            let relation = relations[i];
            if depth < self.max_depth {
                self.stack.push((relation, depth + 1));
            }
            self.found.push(relation);
            proof {
                assert(relations@.take(i + 1) == relations@.take(i as int).push(relation));
                assert(deeper_steps(relations@, i + 1, depth, old(self).max_depth) =~= if depth < old(self).max_depth {
                    deeper_steps(relations@, i as int, depth, old(self).max_depth).push((relation, (depth + 1) as u8))
                } else {
                    deeper_steps(relations@, i as int, depth, old(self).max_depth)
                });
            }
            if self.found.len() >= self.limit {
                self.full = true;
                return;
            }
            i += 1;
        }
        proof {
            assert(relations@.take(i as int) == relations@);
        }
    }
}

} // verus!
