//! A room's state, stored as a stack of diffs rather than a copy per version.
//!
//! Every event that changes state produces a new version of the whole state.
//! A version is stored as what it added and removed relative to a parent
//! version, and the full state is rebuilt by walking down to the bottom layer
//! and applying each diff on the way back up. A diff that has become large
//! relative to its parent is merged into that parent instead of stacked on top
//! of it, which keeps the walk short.
//!
//! An entry is a short state key and a short event id. Stored, it is the two
//! spelled big-endian one after the other, so that byte order sorts by state
//! key; in memory it is the pair, which orders the same way.

use std::collections::BTreeSet;
use vstd::prelude::*;
use crate::bytes::{be_bytes, from_be_bytes, lemma_be_bytes_round_trip, lemma_from_be_bytes_round_trip, u64_be_bytes, u64_from_be_bytes};
use vstd::std_specs::btree::spec_btree_keys_iter;
use vstd::std_specs::iter::IteratorSpec;

verus! {

broadcast use vstd::std_specs::btree::group_btree_axioms, vstd::laws_cmp::group_laws_cmp;

/// The short id a (type, state key) pair is stored under.
pub type ShortStateKey = u64;

/// The short id an event id is stored under.
pub type ShortEventId = u64;

/// The short id one version of a room's state is stored under.
pub type ShortStateHash = u64;

/// A short state key and a short event id: one entry of a room's state.
pub type StateEntry = (ShortStateKey, ShortEventId);

/// One entry as stored: the short state key and the short event id,
/// big-endian, one after the other.
pub type CompressedStateEvent = [u8; 16];

/// A room's state at one version, ordered by state key.
pub type CompressedState = BTreeSet<StateEntry>;

/// The entries of a state, in the set's own order, each once.
pub fn entries(s: &CompressedState) -> (v: Vec<StateEntry>)
    ensures
        v@.to_set() == s@,
        v@.no_duplicates(),
{
    let ghost keys = spec_btree_keys_iter(s).remaining();
    let mut v: Vec<StateEntry> = Vec::new();
    for e in it: s.iter()
        invariant
            it.seq() == keys,
            keys.unref().to_set() == s@,
            keys.no_duplicates(),
            v@ == keys.unref().take(it.index() as int),
    {
        v.push(*e);
        assert(keys.unref().take(it.index() + 1) =~= keys.unref().take(it.index() as int).push(*e));
    }
    assert(keys.unref().take(keys.len() as int) =~= keys.unref());
    assert(keys.unref().no_duplicates()) by {
        assert forall|i: int, j: int| 0 <= i < j < keys.len() implies keys.unref()[i] != keys.unref()[j] by {
            assert(keys[i] != keys[j]);
        }
    }
    v
}


/// The bytes one entry is stored as.
pub open spec fn entry_bytes(e: StateEntry) -> Seq<u8> {
    be_bytes(e.0) + be_bytes(e.1)
}

/// The entry stored at byte `at` of `b`.
pub open spec fn entry_at(b: Seq<u8>, at: int) -> StateEntry {
    (from_be_bytes(b, at), from_be_bytes(b, at + 8))
}

/// Packs a state key and an event id into one [`CompressedStateEvent`].
pub fn compress_state_event(
    shortstatekey: ShortStateKey,
    shorteventid: ShortEventId,
) -> (c: CompressedStateEvent)
    ensures
        c@ == entry_bytes((shortstatekey, shorteventid)),
{
    let k = u64_be_bytes(shortstatekey);
    let e = u64_be_bytes(shorteventid);
    let c = [k[0], k[1], k[2], k[3], k[4], k[5], k[6], k[7], e[0], e[1], e[2], e[3], e[4], e[5], e[6], e[7]];
    assert(c@ =~= k@ + e@);
    c
}

/// The inverse of [`compress_state_event`].
pub fn parse_compressed_state_event(
    compressed_event: CompressedStateEvent,
) -> (r: (ShortStateKey, ShortEventId))
    ensures
        r == entry_at(compressed_event@, 0),
{
    let b: &[u8] = compressed_event.as_slice();
    (u64_from_be_bytes(b, 0), u64_from_be_bytes(b, 8))
}

/// Packing and unpacking give back the entry that was packed.
pub proof fn lemma_compressed_entry_round_trip(e: StateEntry)
    ensures
        entry_at(entry_bytes(e), 0) == e,
        entry_bytes(e).len() == 16,
{
    let b = entry_bytes(e);
    lemma_be_bytes_round_trip(e.0);
    lemma_be_bytes_round_trip(e.1);
    assert(b.subrange(0, 8) =~= be_bytes(e.0));
    assert(b.subrange(8, 16) =~= be_bytes(e.1));
    assert(from_be_bytes(b, 0) == from_be_bytes(be_bytes(e.0), 0));
    assert(from_be_bytes(b, 8) == from_be_bytes(be_bytes(e.1), 0));
}

/// Unpacking and packing give back the bytes that were unpacked.
pub proof fn lemma_entry_bytes_round_trip(b: Seq<u8>, at: int)
    requires
        0 <= at,
        at + 16 <= b.len(),
    ensures
        entry_bytes(entry_at(b, at)) == b.subrange(at, at + 16),
{
    lemma_from_be_bytes_round_trip(b, at);
    lemma_from_be_bytes_round_trip(b, at + 8);
    assert(entry_bytes(entry_at(b, at)) =~= b.subrange(at, at + 16));
}

/// The state a layer describes: its parent's, plus what it added, less what it
/// removed.
pub open spec fn apply_diff(
    base: Set<StateEntry>,
    added: Set<StateEntry>,
    removed: Set<StateEntry>,
) -> Set<StateEntry> {
    base.union(added).difference(removed)
}

/// A diff as the compressor makes them: it adds only what the state below
/// lacks and removes only what it holds.
pub open spec fn proper_diff(
    base: Set<StateEntry>,
    added: Set<StateEntry>,
    removed: Set<StateEntry>,
) -> bool {
    &&& added.disjoint(base)
    &&& removed.subset_of(base)
}

/// The entries of `a` that are not in `b`.
pub fn difference(a: &CompressedState, b: &CompressedState) -> (r: CompressedState)
    ensures
        r@ == a@.difference(b@),
{
    let v = entries(a);
    let mut r: CompressedState = BTreeSet::new();
    let mut i: usize = 0;
    while i < v.len()
        invariant
            i <= v@.len(),
            v@.to_set() == a@,
            r@ == v@.take(i as int).to_set().difference(b@),
        decreases v@.len() - i,
    {
        let e = v[i];
        if !b.contains(&e) {
            r.insert(e);
        }
        assert(v@.take(i + 1) =~= v@.take(i as int).push(e));
        proof { v@.take(i as int).lemma_push_to_set_commute(e); }
        i = i + 1;
        assert(r@ =~= v@.take(i as int).to_set().difference(b@));
    }
    assert(v@.take(v@.len() as int) =~= v@);
    r
}

/// `base` with every entry of `added` put in and every entry of `removed`
/// taken out, in that order.
pub fn apply_state_diff(
    base: &CompressedState,
    added: &CompressedState,
    removed: &CompressedState,
) -> (r: CompressedState)
    ensures
        r@ == apply_diff(base@, added@, removed@),
{
    let mut r = base.clone();
    let va = entries(added);
    let mut i: usize = 0;
    while i < va.len()
        invariant
            i <= va@.len(),
            va@.to_set() == added@,
            r@ == base@.union(va@.take(i as int).to_set()),
        decreases va@.len() - i,
    {
        let e = va[i];
        r.insert(e);
        assert(va@.take(i + 1) =~= va@.take(i as int).push(e));
        proof { va@.take(i as int).lemma_push_to_set_commute(e); }
        i = i + 1;
        assert(r@ =~= base@.union(va@.take(i as int).to_set()));
    }
    assert(va@.take(va@.len() as int) =~= va@);
    let vr = entries(removed);
    let ghost full = r@;
    let mut j: usize = 0;
    while j < vr.len()
        invariant
            j <= vr@.len(),
            vr@.to_set() == removed@,
            r@ == full.difference(vr@.take(j as int).to_set()),
        decreases vr@.len() - j,
    {
        let e = vr[j];
        r.remove(&e);
        assert(vr@.take(j + 1) =~= vr@.take(j as int).push(e));
        proof { vr@.take(j as int).lemma_push_to_set_commute(e); }
        j = j + 1;
        assert(r@ =~= full.difference(vr@.take(j as int).to_set()));
    }
    assert(vr@.take(vr@.len() as int) =~= vr@);
    r
}

/// What turns `parent` into `new`: the entries only `new` holds, and the
/// entries only `parent` holds.
pub fn state_diff(
    new: &CompressedState,
    parent: &CompressedState,
) -> (r: (CompressedState, CompressedState))
    ensures
        r.0@ == new@.difference(parent@),
        r.1@ == parent@.difference(new@),
        proper_diff(parent@, r.0@, r.1@),
        apply_diff(parent@, r.0@, r.1@) == new@,
{
    let added = difference(new, parent);
    let removed = difference(parent, new);
    assert(apply_diff(parent@, added@, removed@) =~= new@);
    (added, removed)
}

/// One version of a room's state, as stored: what it changed and where it
/// changed from.
#[derive(Debug)]
pub struct StateDiff {
    pub parent: Option<ShortStateHash>,
    pub added: CompressedState,
    pub removed: CompressedState,
}

/// One layer of the stack, with the full state as of that layer already
/// applied.
#[derive(Debug)]
pub struct ShortStateInfo {
    pub shortstatehash: ShortStateHash,
    pub full_state: CompressedState,
    pub added: CompressedState,
    pub removed: CompressedState,
}

/// What a state change amounted to.
#[derive(Debug)]
pub struct HashSetCompressStateEvent {
    pub shortstatehash: ShortStateHash,
    pub added: CompressedState,
    pub removed: CompressedState,
}

/// A layer stack as the compressor builds it, bottom layer first: the bottom
/// layer's full state is what it added, and each layer above holds its
/// parent's full state with its own diff applied, a diff that is proper
/// against that state.
pub open spec fn consistent_stack(stack: Seq<ShortStateInfo>) -> bool {
    &&& stack.len() > 0 ==> {
        &&& stack[0].full_state@ == stack[0].added@
        &&& stack[0].removed@.is_empty()
    }
    &&& forall|i: int|
        0 < i < stack.len() ==> {
            &&& #[trigger] stack[i].full_state@ == apply_diff(
                stack[i - 1].full_state@,
                stack[i].added@,
                stack[i].removed@,
            )
            &&& proper_diff(stack[i - 1].full_state@, stack[i].added@, stack[i].removed@)
        }
}

/// Applies a child's diff onto its parent's, yielding the diff the parent
/// would have had if the child had never been a layer of its own.
///
/// A change that the child undoes is dropped rather than recorded twice: an
/// event the parent added and the child removed is simply not in the result.
pub fn merge_into_parent(
    parent: &ShortStateInfo,
    statediffnew: &CompressedState,
    statediffremoved: &CompressedState,
) -> (r: (CompressedState, CompressedState))
    ensures
        r.1@ == parent.removed@.union(statediffremoved@.difference(parent.added@)).difference(
            statediffnew@,
        ),
        r.0@ == parent.added@.difference(statediffremoved@).union(
            statediffnew@.difference(
                parent.removed@.union(statediffremoved@.difference(parent.added@)),
            ),
        ),
{
    let mut parent_new = parent.added.clone();
    let mut parent_removed = parent.removed.clone();
    let vr = entries(statediffremoved);
    let mut i: usize = 0;
    while i < vr.len()
        invariant
            i <= vr@.len(),
            vr@.to_set() == statediffremoved@,
            vr@.no_duplicates(),
            parent_new@ == parent.added@.difference(vr@.take(i as int).to_set()),
            parent_removed@ == parent.removed@.union(
                vr@.take(i as int).to_set().difference(parent.added@),
            ),
        decreases vr@.len() - i,
    {
        let e = vr[i];
        assert(!vr@.take(i as int).contains(e));
        if !parent_new.remove(&e) {
            parent_removed.insert(e);
        }
        assert(vr@.take(i + 1) =~= vr@.take(i as int).push(e));
        proof { vr@.take(i as int).lemma_push_to_set_commute(e); }
        i = i + 1;
        assert(parent_new@ =~= parent.added@.difference(vr@.take(i as int).to_set()));
        assert(parent_removed@ =~= parent.removed@.union(
            vr@.take(i as int).to_set().difference(parent.added@),
        ));
    }
    assert(vr@.take(vr@.len() as int) =~= vr@);
    let ghost removed_mid = parent_removed@;
    let ghost new_mid = parent_new@;
    let vn = entries(statediffnew);
    let mut j: usize = 0;
    while j < vn.len()
        invariant
            j <= vn@.len(),
            vn@.to_set() == statediffnew@,
            vn@.no_duplicates(),
            parent_removed@ == removed_mid.difference(vn@.take(j as int).to_set()),
            parent_new@ == new_mid.union(vn@.take(j as int).to_set().difference(removed_mid)),
        decreases vn@.len() - j,
    {
        let e = vn[j];
        assert(!vn@.take(j as int).contains(e));
        if !parent_removed.remove(&e) {
            parent_new.insert(e);
        }
        assert(vn@.take(j + 1) =~= vn@.take(j as int).push(e));
        proof { vn@.take(j as int).lemma_push_to_set_commute(e); }
        j = j + 1;
        assert(parent_removed@ =~= removed_mid.difference(vn@.take(j as int).to_set()));
        assert(parent_new@ =~= new_mid.union(vn@.take(j as int).to_set().difference(removed_mid)));
    }
    assert(vn@.take(vn@.len() as int) =~= vn@);
    assert(parent_removed@ =~= parent.removed@.union(
        statediffremoved@.difference(parent.added@),
    ).difference(statediffnew@));
    assert(parent_new@ =~= parent.added@.difference(statediffremoved@).union(
        statediffnew@.difference(parent.removed@.union(statediffremoved@.difference(parent.added@))),
    ));
    (parent_new, parent_removed)
}

/// Merging a child's diff into its parent's describes the same state as
/// stacking the two: applying the merged diff to the parent's own parent gives
/// what applying the parent's diff and then the child's would, and the merged
/// diff is again one the compressor could have made.
pub proof fn lemma_merge_composes(
    base: Set<StateEntry>,
    parent_added: Set<StateEntry>,
    parent_removed: Set<StateEntry>,
    child_added: Set<StateEntry>,
    child_removed: Set<StateEntry>,
)
    requires
        proper_diff(base, parent_added, parent_removed),
        proper_diff(apply_diff(base, parent_added, parent_removed), child_added, child_removed),
    ensures
        ({
            let merged_removed = parent_removed.union(child_removed.difference(parent_added)).difference(child_added);
            let merged_added = parent_added.difference(child_removed).union(
                child_added.difference(parent_removed.union(child_removed.difference(parent_added))),
            );
            &&& apply_diff(base, merged_added, merged_removed) == apply_diff(
                apply_diff(base, parent_added, parent_removed),
                child_added,
                child_removed,
            )
            &&& proper_diff(base, merged_added, merged_removed)
        }),
{
    let merged_removed = parent_removed.union(child_removed.difference(parent_added)).difference(child_added);
    let merged_added = parent_added.difference(child_removed).union(
        child_added.difference(parent_removed.union(child_removed.difference(parent_added))),
    );
    assert(apply_diff(base, merged_added, merged_removed) =~= apply_diff(
        apply_diff(base, parent_added, parent_removed),
        child_added,
        child_removed,
    ));
    assert(merged_added.disjoint(base));
    assert(merged_removed.subset_of(base));
}


/// Why a state version could not be worked out.
#[derive(Debug, Clone, Copy, PartialEq, Eq)]
pub enum StateError {
    /// A size the layering decision multiplies overflowed.
    Arithmetic,
    /// A non-state event arrived in a room with no state yet, which makes it
    /// the room's first event; the first event must be a state event.
    NoPreviousState,
}

/// The full state at the top of a stack, or the empty state below an empty one.
pub open spec fn top_full_state(stack: Seq<ShortStateInfo>) -> Set<StateEntry> {
    if stack.len() == 0 {
        Set::empty()
    } else {
        stack.last().full_state@
    }
}

/// What the layer stack for one version looks like once that version's diff
/// has been read: a lone bottom layer when it has no parent, and otherwise its
/// parent's stack with the diff applied on top.
pub fn new_shortstatehash_info(
    shortstatehash: ShortStateHash,
    diff: StateDiff,
    parent_stack: Vec<ShortStateInfo>,
) -> (stack: Vec<ShortStateInfo>)
    requires
        diff.parent is Some ==> parent_stack@.len() > 0,
    ensures
        stack@.len() > 0,
        stack@.last().shortstatehash == shortstatehash,
        stack@.last().added@ == diff.added@,
        stack@.last().removed@ == diff.removed@,
        diff.parent is None ==> stack@.len() == 1 && stack@[0].full_state@ == diff.added@,
        diff.parent is Some ==> {
            &&& stack@.drop_last() == parent_stack@
            &&& stack@.last().full_state@ == apply_diff(
                parent_stack@.last().full_state@,
                diff.added@,
                diff.removed@,
            )
        },
        diff.parent is None && diff.removed@.is_empty() ==> consistent_stack(stack@),
        diff.parent is Some && consistent_stack(parent_stack@) && proper_diff(
            parent_stack@.last().full_state@,
            diff.added@,
            diff.removed@,
        ) ==> consistent_stack(stack@),
{
    let StateDiff { parent, added, removed } = diff;
    match parent {
        None => {
            let full_state = added.clone();
            let mut stack = Vec::new();
            stack.push(ShortStateInfo { shortstatehash, full_state, added, removed });
            stack
        },
        Some(_) => {
            let mut stack = parent_stack;
            let top = stack.len() - 1;
            let full_state = apply_state_diff(&stack[top].full_state, &added, &removed);
            let ghost before = stack@;
            stack.push(ShortStateInfo { shortstatehash, full_state, added, removed });
            assert(stack@.drop_last() =~= before);
            stack
        },
    }
}

/// The diff a parent layer would have had with a child's diff folded in, as
/// `merge_into_parent` builds it: what was added, and what was removed.
pub open spec fn folded(
    parent_added: Set<StateEntry>,
    parent_removed: Set<StateEntry>,
    added: Set<StateEntry>,
    removed: Set<StateEntry>,
) -> (Set<StateEntry>, Set<StateEntry>) {
    let undone = parent_removed.union(removed.difference(parent_added));
    (parent_added.difference(removed).union(added.difference(undone)), undone.difference(added))
}

/// Where the layering rule stores a diff onto a stack: the hash of the layer
/// it sits on (`None` for a bottom layer) with the diff it holds there, or the
/// error of a size product that does not fit in a `usize`.
///
/// With more than three layers below, the diff is folded into the top one and
/// the decision made again one layer down; with none, it is a bottom layer.
/// Otherwise, when the square of its size reaches twice the sibling size times
/// the size of the top layer's diff, it is folded in the same way; else it
/// sits on the top layer.
pub open spec fn layer_decision(
    stack: Seq<ShortStateInfo>,
    added: Set<StateEntry>,
    removed: Set<StateEntry>,
    diff_to_sibling: int,
) -> Result<(Option<ShortStateHash>, Set<StateEntry>, Set<StateEntry>), StateError>
    decreases stack.len(),
{
    let diffsum = added.len() + removed.len();
    if diffsum > usize::MAX {
        Err(StateError::Arithmetic)
    } else if stack.len() == 0 {
        Ok((None, added, removed))
    } else {
        let top = stack.last();
        let (fold_added, fold_removed) = folded(top.added@, top.removed@, added, removed);
        if stack.len() > 3 {
            layer_decision(stack.drop_last(), fold_added, fold_removed, diffsum as int)
        } else {
            let parent_diff = top.added@.len() + top.removed@.len();
            if parent_diff > usize::MAX || diffsum * diffsum > usize::MAX || 2 * diff_to_sibling > usize::MAX
                || 2 * diff_to_sibling * parent_diff > usize::MAX {
                Err(StateError::Arithmetic)
            } else if diffsum * diffsum >= 2 * diff_to_sibling * parent_diff {
                layer_decision(stack.drop_last(), fold_added, fold_removed, diffsum as int)
            } else {
                Ok((Some(top.shortstatehash), added, removed))
            }
        }
    }
}

/// The layer a version of `shortstatehash` is stored as: where it lands in
/// `parent_states` (`None` for a layer of its own at the bottom) and the diff
/// it holds there.
///
/// * `statediffnew` — what this version adds to the top layer below
/// * `statediffremoved` — what it removes from the top layer below
/// * `diff_to_sibling` — roughly how much a diff on this layer grows each time,
///   which is what "large relative to its parent" is measured against
/// * `parent_states` — the stack below, bottom layer first
///
/// Layer 0 holds a full state and each layer above it holds a diff against
/// the one below. With more than three layers below, or a diff whose square
/// reaches twice `diff_to_sibling` times the diff of the layer it would sit
/// on, the diff is merged into that layer instead and the decision made again
/// one layer down.
pub fn save_state_from_diff(
    shortstatehash: ShortStateHash,
    statediffnew: CompressedState,
    statediffremoved: CompressedState,
    diff_to_sibling: usize,
    parent_states: Vec<ShortStateInfo>,
) -> (r: Result<(ShortStateHash, StateDiff), StateError>)
    ensures
        match r {
            Ok((_, stored)) => layer_decision(parent_states@, statediffnew@, statediffremoved@, diff_to_sibling as int)
                == Ok::<_, StateError>((stored.parent, stored.added@, stored.removed@)),
            Err(e) => layer_decision(parent_states@, statediffnew@, statediffremoved@, diff_to_sibling as int)
                == Err::<(Option<ShortStateHash>, Set<StateEntry>, Set<StateEntry>), _>(e),
        },
        r matches Ok((hash, stored)) ==> {
            &&& hash == shortstatehash
            &&& (consistent_stack(parent_states@) && proper_diff(
                top_full_state(parent_states@),
                statediffnew@,
                statediffremoved@,
            )) ==> stored_layer(
                parent_states@,
                stored,
                apply_diff(top_full_state(parent_states@), statediffnew@, statediffremoved@),
            )
        },
    decreases parent_states@.len(),
{
    let mut parent_states = parent_states;
    let diffsum = match statediffnew.len().checked_add(statediffremoved.len()) {
        Some(sum) => sum,
        None => return Err(StateError::Arithmetic),
    };
    let ghost given_stack = parent_states@;
    let ghost target = apply_diff(top_full_state(given_stack), statediffnew@, statediffremoved@);
    proof {
        assert(statediffnew.len() == statediffnew@.len());
        assert(statediffremoved.len() == statediffremoved@.len());
    }

    if parent_states.len() > 3 {
        let parent = parent_states.pop().unwrap();
        let (parent_new, parent_removed) = merge_into_parent(&parent, &statediffnew, &statediffremoved);
        proof {
            assert(parent_states@ =~= given_stack.drop_last());
            assert((parent_new@, parent_removed@) == folded(parent.added@, parent.removed@, statediffnew@, statediffremoved@));
            if consistent_stack(given_stack) && proper_diff(top_full_state(given_stack), statediffnew@, statediffremoved@) {
                let n = given_stack.len() as int;
                assert(given_stack[n - 1].full_state@ == apply_diff(given_stack[n - 2].full_state@, given_stack[n - 1].added@, given_stack[n - 1].removed@));
                lemma_merge_composes(given_stack[n - 2].full_state@, parent.added@, parent.removed@, statediffnew@, statediffremoved@);
                lemma_prefix_consistent(given_stack);
            }
        }
        return save_state_from_diff(shortstatehash, parent_new, parent_removed, diffsum, parent_states);
    }

    if parent_states.len() == 0 {
        proof {
            if proper_diff(top_full_state(given_stack), statediffnew@, statediffremoved@) {
                assert(statediffremoved@ =~= Set::empty());
                assert(target =~= statediffnew@);
            }
        }
        return Ok((shortstatehash, StateDiff { parent: None, added: statediffnew, removed: statediffremoved }));
    }

    let parent = parent_states.pop().unwrap();
    let parent_diff = match parent.added.len().checked_add(parent.removed.len()) {
        Some(sum) => sum,
        None => return Err(StateError::Arithmetic),
    };
    let square = match diffsum.checked_mul(diffsum) {
        Some(square) => square,
        None => return Err(StateError::Arithmetic),
    };
    let threshold = match 2usize.checked_mul(diff_to_sibling) {
        Some(twice) => match twice.checked_mul(parent_diff) {
            Some(threshold) => threshold,
            None => return Err(StateError::Arithmetic),
        },
        None => return Err(StateError::Arithmetic),
    };

    if square >= threshold {
        let (parent_new, parent_removed) = merge_into_parent(&parent, &statediffnew, &statediffremoved);
        proof {
            assert(parent_states@ =~= given_stack.drop_last());
            assert((parent_new@, parent_removed@) == folded(parent.added@, parent.removed@, statediffnew@, statediffremoved@));
            if consistent_stack(given_stack) && proper_diff(top_full_state(given_stack), statediffnew@, statediffremoved@) {
                let n = given_stack.len() as int;
                let base = top_full_state(parent_states@);
                if n >= 2 {
                    assert(given_stack[n - 1].full_state@ == apply_diff(given_stack[n - 2].full_state@, given_stack[n - 1].added@, given_stack[n - 1].removed@));
                } else {
                    assert(given_stack[0].full_state@ =~= apply_diff(base, given_stack[0].added@, given_stack[0].removed@));
                }
                lemma_merge_composes(base, parent.added@, parent.removed@, statediffnew@, statediffremoved@);
                lemma_prefix_consistent(given_stack);
            }
        }
        save_state_from_diff(shortstatehash, parent_new, parent_removed, diffsum, parent_states)
    } else {
        proof {
            let n = given_stack.len() as int;
            assert(given_stack[n - 1] == parent);
        }
        Ok((
            shortstatehash,
            StateDiff {
                parent: Some(parent.shortstatehash),
                added: statediffnew,
                removed: statediffremoved,
            },
        ))
    }
}

/// A stored layer that rebuilds `target`: a bottom layer holding it whole, or a
/// proper diff onto one of the bottom three layers of `stack` that yields it.
pub open spec fn stored_layer(stack: Seq<ShortStateInfo>, stored: StateDiff, target: Set<StateEntry>) -> bool {
    match stored.parent {
        None => stored.added@ == target && stored.removed@.is_empty(),
        Some(hash) => exists|i: int|
            0 <= i < stack.len() && i < 3 && #[trigger] stack[i].shortstatehash == hash && apply_diff(
                stack[i].full_state@,
                stored.added@,
                stored.removed@,
            ) == target && proper_diff(stack[i].full_state@, stored.added@, stored.removed@),
    }
}

/// A consistent stack stays consistent with its top layer taken off.
pub proof fn lemma_prefix_consistent(stack: Seq<ShortStateInfo>)
    requires
        consistent_stack(stack),
        stack.len() > 0,
    ensures
        consistent_stack(stack.drop_last()),
{
    let p = stack.drop_last();
    assert forall|i: int| 0 < i < p.len() implies {
        &&& #[trigger] p[i].full_state@ == apply_diff(p[i - 1].full_state@, p[i].added@, p[i].removed@)
        &&& proper_diff(p[i - 1].full_state@, p[i].added@, p[i].removed@)
    } by {
        assert(p[i] == stack[i] && p[i - 1] == stack[i - 1]);
        assert(stack[i].full_state@ == apply_diff(stack[i - 1].full_state@, stack[i].added@, stack[i].removed@));
    }
}


/// Entries one after the other, sixteen bytes each.
pub open spec fn entries_bytes(s: Seq<StateEntry>) -> Seq<u8>
    decreases s.len(),
{
    if s.len() == 0 {
        Seq::empty()
    } else {
        entry_bytes(s[0]) + entries_bytes(s.drop_first())
    }
}

/// How one layer is stored: the parent's hash (zero for none), the added
/// entries, and — only if anything was removed — a zero word and the removed
/// entries.
pub open spec fn statediff_value(parent: u64, added: Seq<StateEntry>, removed: Seq<StateEntry>) -> Seq<u8> {
    be_bytes(parent) + entries_bytes(added) + if removed.len() == 0 {
        Seq::empty()
    } else {
        be_bytes(0) + entries_bytes(removed)
    }
}

/// What a stored layer reads back as, from byte `i` on: sixteen bytes at a
/// time while sixteen remain, each an entry, except that a zero word met while
/// still reading additions switches to reading removals.
pub open spec fn scan_statediff(v: Seq<u8>, i: int, add_mode: bool) -> (Set<StateEntry>, Set<StateEntry>)
    decreases v.len() - i,
{
    if i < 0 || i + 16 > v.len() {
        (Set::empty(), Set::empty())
    } else if add_mode && v.subrange(i, i + 8) == be_bytes(0) {
        scan_statediff(v, i + 8, false)
    } else {
        let rest = scan_statediff(v, i + 16, add_mode);
        if add_mode {
            (rest.0.insert(entry_at(v, i)), rest.1)
        } else {
            (rest.0, rest.1.insert(entry_at(v, i)))
        }
    }
}

/// The bytes `entries` spells `s` in, for one entry more.
proof fn lemma_entries_bytes_push(s: Seq<StateEntry>, e: StateEntry)
    ensures
        entries_bytes(s.push(e)) == entries_bytes(s) + entry_bytes(e),
    decreases s.len(),
{
    if s.len() == 0 {
        assert(s.push(e).drop_first() =~= s);
        assert(entries_bytes(s.push(e)) =~= entries_bytes(s) + entry_bytes(e));
    } else {
        assert(s.push(e).drop_first() =~= s.drop_first().push(e));
        lemma_entries_bytes_push(s.drop_first(), e);
        assert(entries_bytes(s.push(e)) =~= entries_bytes(s) + entry_bytes(e));
    }
}

proof fn lemma_entries_bytes_len(s: Seq<StateEntry>)
    ensures
        entries_bytes(s).len() == 16 * s.len(),
    decreases s.len(),
{
    if s.len() > 0 {
        lemma_entries_bytes_len(s.drop_first());
        lemma_compressed_entry_round_trip(s[0]);
    }
}

/// The value one layer is stored under, as written to the column.
pub fn encode_statediff(diff: &StateDiff) -> (value: Vec<u8>)
    ensures
        exists|a: Seq<StateEntry>, r: Seq<StateEntry>| {
            &&& a.to_set() == diff.added@
            &&& a.no_duplicates()
            &&& r.to_set() == diff.removed@
            &&& r.no_duplicates()
            &&& value@ == statediff_value(
                match diff.parent {
                    Some(p) => p,
                    None => 0,
                },
                a,
                r,
            )
        },
{
    let parent = match diff.parent {
        Some(p) => p,
        None => 0,
    };
    let mut value: Vec<u8> = Vec::new();
    let pb = u64_be_bytes(parent);
    value.extend_from_slice(pb.as_slice());
    let va = entries(&diff.added);
    let mut i: usize = 0;
    while i < va.len()
        invariant
            i <= va@.len(),
            value@ == be_bytes(parent) + entries_bytes(va@.take(i as int)),
        decreases va@.len() - i,
    {
        let c = compress_state_event(va[i].0, va[i].1);
        value.extend_from_slice(c.as_slice());
        proof {
            assert(va@.take(i + 1) =~= va@.take(i as int).push(va@[i as int]));
            lemma_entries_bytes_push(va@.take(i as int), va@[i as int]);
        }
        i = i + 1;
    }
    assert(va@.take(va@.len() as int) =~= va@);
    let vr = entries(&diff.removed);
    if vr.len() > 0 {
        let zero = u64_be_bytes(0);
        value.extend_from_slice(zero.as_slice());
        let ghost prefix = value@;
        let mut j: usize = 0;
        while j < vr.len()
            invariant
                j <= vr@.len(),
                value@ == prefix + entries_bytes(vr@.take(j as int)),
            decreases vr@.len() - j,
        {
            let c = compress_state_event(vr[j].0, vr[j].1);
            value.extend_from_slice(c.as_slice());
            proof {
                assert(vr@.take(j + 1) =~= vr@.take(j as int).push(vr@[j as int]));
                lemma_entries_bytes_push(vr@.take(j as int), vr@[j as int]);
            }
            j = j + 1;
        }
        assert(vr@.take(vr@.len() as int) =~= vr@);
    }
    assert(value@ =~= statediff_value(parent, va@, vr@));
    value
}

/// Reads one layer back out of its stored value.
///
/// The stored form is the parent's hash, then the added events, then — only
/// if anything was removed — a zero word and the removed events. Zero is
/// usable as the separator because it is never a valid short state key, the
/// counter every short id comes from starting at one.
pub fn decode_statediff(value: &[u8]) -> (diff: StateDiff)
    requires
        value@.len() >= 8,
    ensures
        diff.parent == (if from_be_bytes(value@, 0) == 0 {
            None
        } else {
            Some(from_be_bytes(value@, 0))
        }),
        (diff.added@, diff.removed@) == scan_statediff(value@, 8, true),
{
    let p = u64_from_be_bytes(value, 0);
    let parent = if p == 0 {
        None
    } else {
        Some(p)
    };
    let mut add_mode = true;
    let mut added: CompressedState = BTreeSet::new();
    let mut removed: CompressedState = BTreeSet::new();
    let mut i: usize = 8;
    while i <= value.len() && value.len() - i >= 16
        invariant
            8 <= i,
            ({
                let rest = scan_statediff(value@, i as int, add_mode);
                scan_statediff(value@, 8, true) == (added@.union(rest.0), removed@.union(rest.1))
            }),
        decreases value@.len() - i,
    {
        let ghost before = (added@, removed@);
        let ghost was_add = add_mode;
        if add_mode && value[i] == 0 && value[i + 1] == 0 && value[i + 2] == 0 && value[i + 3] == 0
            && value[i + 4] == 0 && value[i + 5] == 0 && value[i + 6] == 0 && value[i + 7] == 0 {
            proof {
                assert(value@.subrange(i as int, i + 8) =~= be_bytes(0)) by {
                    assert(be_bytes(0) =~= seq![0u8, 0u8, 0u8, 0u8, 0u8, 0u8, 0u8, 0u8]) by {
                        assert((0u64 >> 56u64) as u8 == 0 && (0u64 >> 48u64) as u8 == 0 && (0u64 >> 40u64) as u8 == 0 && (0u64 >> 32u64) as u8 == 0 && (0u64 >> 24u64) as u8 == 0 && (0u64 >> 16u64) as u8 == 0 && (0u64 >> 8u64) as u8 == 0 && 0u64 as u8 == 0) by (bit_vector);
                    }
                }
            }
            add_mode = false;
            i = i + 8;
        } else {
            proof {
                if was_add {
                    assert(value@.subrange(i as int, i + 8) != be_bytes(0)) by {
                        assert((0u64 >> 56u64) as u8 == 0 && (0u64 >> 48u64) as u8 == 0 && (0u64 >> 40u64) as u8 == 0 && (0u64 >> 32u64) as u8 == 0 && (0u64 >> 24u64) as u8 == 0 && (0u64 >> 16u64) as u8 == 0 && (0u64 >> 8u64) as u8 == 0 && 0u64 as u8 == 0) by (bit_vector);
                        if value@.subrange(i as int, i + 8) == be_bytes(0) {
                            assert(value@[i as int] == value@.subrange(i as int, i + 8)[0]);
                            assert(value@[i + 1] == value@.subrange(i as int, i + 8)[1]);
                            assert(value@[i + 2] == value@.subrange(i as int, i + 8)[2]);
                            assert(value@[i + 3] == value@.subrange(i as int, i + 8)[3]);
                            assert(value@[i + 4] == value@.subrange(i as int, i + 8)[4]);
                            assert(value@[i + 5] == value@.subrange(i as int, i + 8)[5]);
                            assert(value@[i + 6] == value@.subrange(i as int, i + 8)[6]);
                            assert(value@[i + 7] == value@.subrange(i as int, i + 8)[7]);
                        }
                    }
                }
            }
            let k = u64_from_be_bytes(value, i);
            let e = u64_from_be_bytes(value, i + 8);
            if add_mode {
                added.insert((k, e));
            } else {
                removed.insert((k, e));
            }
            i = i + 16;
            proof {
                let rest = scan_statediff(value@, i as int, add_mode);
                if was_add {
                    assert(added@.union(rest.0) =~= before.0.union(rest.0.insert((k, e))));
                    assert(removed@.union(rest.1) =~= before.1.union(rest.1));
                } else {
                    assert(added@.union(rest.0) =~= before.0.union(rest.0));
                    assert(removed@.union(rest.1) =~= before.1.union(rest.1.insert((k, e))));
                }
            }
        }
    }
    proof {
        let rest = scan_statediff(value@, i as int, add_mode);
        assert(rest.0 =~= Set::empty() && rest.1 =~= Set::empty());
        assert(added@.union(rest.0) =~= added@);
        assert(removed@.union(rest.1) =~= removed@);
    }
    StateDiff { parent, added, removed }
}


proof fn lemma_from_be_bytes_shift(v: Seq<u8>, i: int, w: Seq<u8>)
    requires
        0 <= i,
        i + 8 <= v.len(),
        w == v.subrange(i, v.len() as int),
    ensures
        from_be_bytes(v, i) == from_be_bytes(w, 0),
{
    assert(w[0] == v[i] && w[1] == v[i + 1] && w[2] == v[i + 2] && w[3] == v[i + 3]);
    assert(w[4] == v[i + 4] && w[5] == v[i + 5] && w[6] == v[i + 6] && w[7] == v[i + 7]);
}

/// Reading entries back, in either mode, collects exactly the entries written,
/// as long as none met while reading additions starts with a zero word.
proof fn lemma_scan_entries(v: Seq<u8>, i: int, s: Seq<StateEntry>, add_mode: bool)
    requires
        0 <= i,
        i + 16 * s.len() <= v.len(),
        v.subrange(i, i + 16 * s.len()) == entries_bytes(s),
        add_mode ==> forall|k: int| 0 <= k < s.len() ==> (#[trigger] s[k]).0 != 0,
    ensures
        ({
            let rest = scan_statediff(v, i + 16 * s.len(), add_mode);
            let here = scan_statediff(v, i, add_mode);
            if add_mode {
                here == (s.to_set().union(rest.0), rest.1)
            } else {
                here == (rest.0, s.to_set().union(rest.1))
            }
        }),
    decreases s.len(),
{
    let rest = scan_statediff(v, i + 16 * s.len(), add_mode);
    if s.len() == 0 {
        assert(s.to_set() =~= Set::empty());
        assert(Set::<StateEntry>::empty().union(rest.0) =~= rest.0);
        assert(Set::<StateEntry>::empty().union(rest.1) =~= rest.1);
    } else {
        let e = s[0];
        lemma_entries_bytes_len(s.drop_first());
        lemma_compressed_entry_round_trip(e);
        assert(v.subrange(i, i + 16) =~= entry_bytes(e)) by {
            assert(entries_bytes(s) == entry_bytes(e) + entries_bytes(s.drop_first()));
            assert(v.subrange(i, i + 16) =~= v.subrange(i, i + 16 * s.len()).subrange(0, 16));
        }
        assert(v.subrange(i + 16, i + 16 + 16 * s.drop_first().len()) =~= entries_bytes(s.drop_first())) by {
            assert(v.subrange(i + 16, i + 16 + 16 * s.drop_first().len()) =~= v.subrange(i, i + 16 * s.len()).subrange(16, 16 * s.len() as int));
        }
        // The entry there reads back as `e`.
        let w = v.subrange(i, v.len() as int);
        lemma_from_be_bytes_shift(v, i, w);
        lemma_from_be_bytes_shift(v, i + 8, v.subrange(i + 8, v.len() as int));
        assert(from_be_bytes(w, 0) == from_be_bytes(entry_bytes(e), 0)) by {
            assert(forall|k: int| 0 <= k < 8 ==> w[k] == #[trigger] entry_bytes(e)[k]) by {
                assert forall|k: int| 0 <= k < 8 implies w[k] == #[trigger] entry_bytes(e)[k] by {
                    assert(w[k] == v.subrange(i, i + 16)[k]);
                }
            }
        }
        let w8 = v.subrange(i + 8, v.len() as int);
        assert(from_be_bytes(w8, 0) == from_be_bytes(entry_bytes(e), 8)) by {
            assert forall|k: int| 0 <= k < 8 implies w8[k] == #[trigger] entry_bytes(e)[8 + k] by {
                assert(w8[k] == v.subrange(i, i + 16)[8 + k]);
            }
        }
        assert(entry_at(v, i) == e);
        if add_mode {
            assert(s[0].0 != 0);
            lemma_be_bytes_round_trip(e.0);
            lemma_be_bytes_round_trip(0);
            assert(v.subrange(i, i + 8) =~= be_bytes(e.0)) by {
                assert(v.subrange(i, i + 8) =~= v.subrange(i, i + 16).subrange(0, 8));
                assert(entry_bytes(e).subrange(0, 8) =~= be_bytes(e.0));
            }
            assert(v.subrange(i, i + 8) != be_bytes(0));
        }
        assert forall|k: int| 0 <= k < s.drop_first().len() && add_mode implies (#[trigger] s.drop_first()[k]).0 != 0 by {
            assert(s.drop_first()[k] == s[k + 1]);
        }
        lemma_scan_entries(v, i + 16, s.drop_first(), add_mode);
        assert(i + 16 + 16 * s.drop_first().len() == i + 16 * s.len());
        assert(s.to_set() =~= s.drop_first().to_set().insert(e)) by {
            assert forall|x: StateEntry| s.to_set().contains(x) <==> s.drop_first().to_set().insert(e).contains(x) by {
                if s.to_set().contains(x) {
                    let k = choose|k: int| 0 <= k < s.len() && s[k] == x;
                    if k > 0 {
                        assert(s.drop_first()[k - 1] == x);
                    }
                }
                if s.drop_first().to_set().contains(x) {
                    let k = choose|k: int| 0 <= k < s.drop_first().len() && s.drop_first()[k] == x;
                    assert(s[k + 1] == x);
                }
            }
        }
        let tail = scan_statediff(v, i + 16, add_mode);
        if add_mode {
            assert(tail.0.insert(e) =~= s.to_set().union(rest.0));
        } else {
            assert(tail.1.insert(e) =~= s.to_set().union(rest.1));
        }
    }
}

/// A stored layer reads back as the layer that was stored, as long as its
/// parent is not spelled zero and no entry it added has a zero state key.
pub proof fn lemma_statediff_round_trip(parent: Option<u64>, added: Seq<StateEntry>, removed: Seq<StateEntry>)
    requires
        parent != Some(0u64),
        forall|k: int| 0 <= k < added.len() ==> (#[trigger] added[k]).0 != 0,
    ensures
        ({
            let v = statediff_value(
                match parent {
                    Some(p) => p,
                    None => 0,
                },
                added,
                removed,
            );
            &&& v.len() >= 8
            &&& (if from_be_bytes(v, 0) == 0 {
                None
            } else {
                Some(from_be_bytes(v, 0))
            }) == parent
            &&& scan_statediff(v, 8, true) == (added.to_set(), removed.to_set())
        }),
{
    let p = match parent {
        Some(p) => p,
        None => 0,
    };
    let v = statediff_value(p, added, removed);
    lemma_entries_bytes_len(added);
    lemma_entries_bytes_len(removed);
    lemma_be_bytes_round_trip(p);
    lemma_be_bytes_round_trip(0);
    assert(from_be_bytes(v, 0) == from_be_bytes(be_bytes(p), 0)) by {
        assert(v.subrange(0, 8) =~= be_bytes(p));
        assert(forall|k: int| 0 <= k < 8 ==> v[k] == #[trigger] be_bytes(p)[k]);
    }
    let j: int = 8 + 16 * added.len() as int;
    assert(v.subrange(8, j) =~= entries_bytes(added));
    lemma_scan_entries(v, 8, added, true);
    let after = scan_statediff(v, j, true);
    if removed.len() == 0 {
        assert(v.len() == j);
        assert(after.0 =~= Set::empty() && after.1 =~= Set::empty());
        assert(removed.to_set() =~= Set::empty());
        assert(added.to_set().union(after.0) =~= added.to_set());
    } else {
        assert(v.subrange(j, j + 8) =~= be_bytes(0));
        assert(v.len() == j + 8 + 16 * removed.len());
        assert(scan_statediff(v, j, true) == scan_statediff(v, j + 8, false));
        assert(v.subrange(j + 8, j + 8 + 16 * removed.len()) =~= entries_bytes(removed));
        lemma_scan_entries(v, j + 8, removed, false);
        let end = scan_statediff(v, j + 8 + 16 * removed.len(), false);
        assert(end.0 =~= Set::empty() && end.1 =~= Set::empty());
        assert(removed.to_set().union(end.1) =~= removed.to_set());
        assert(added.to_set().union(after.0) =~= added.to_set());
    }
}


/// At most one entry per state key, as a room's state has.
pub open spec fn unique_keys(s: Set<StateEntry>) -> bool {
    forall|a: StateEntry, b: StateEntry| #[trigger] s.contains(a) && #[trigger] s.contains(b) && a.0 == b.0 ==> a == b
}

/// The first entry of `full` at state key `k`, in the state's own order: the
/// one with the smallest event id, if there is any.
pub open spec fn spec_first_at_key(full: Set<StateEntry>, k: ShortStateKey) -> Option<StateEntry> {
    if exists|e: ShortEventId| full.contains((k, e)) {
        Some((k, choose|e: ShortEventId| full.contains((k, e)) && forall|e2: ShortEventId| full.contains((k, e2)) ==> e <= e2))
    } else {
        None
    }
}

/// An entry at `k` no larger than any other there is the first one.
proof fn lemma_first_at_key(full: Set<StateEntry>, k: ShortStateKey, e: ShortEventId)
    requires
        full.contains((k, e)),
        forall|e2: ShortEventId| full.contains((k, e2)) ==> e <= e2,
    ensures
        spec_first_at_key(full, k) == Some((k, e)),
{
    let c = choose|c: ShortEventId| full.contains((k, c)) && forall|e2: ShortEventId| full.contains((k, e2)) ==> c <= e2;
    assert(full.contains((k, c)));
    assert(c <= e && e <= c);
}

/// The first entry of `full` at state key `k`, in the state's own order: the
/// one with the smallest event id.
pub fn first_at_key(full: &CompressedState, k: ShortStateKey) -> (r: Option<StateEntry>)
    ensures
        r == spec_first_at_key(full@, k),
        r is None <==> !exists|e: ShortEventId| full@.contains((k, e)),
        r matches Some(found) ==> {
            &&& found.0 == k
            &&& full@.contains(found)
            &&& forall|e: ShortEventId| full@.contains((k, e)) ==> found.1 <= e
        },
{
    let v = entries(full);
    let mut best: Option<StateEntry> = None;
    let mut i: usize = 0;
    while i < v.len()
        invariant
            i <= v@.len(),
            v@.to_set() == full@,
            best is None <==> !exists|j: int| 0 <= j < i && (#[trigger] v@[j]).0 == k,
            best matches Some(b) ==> {
                &&& b.0 == k
                &&& full@.contains(b)
                &&& forall|j: int| 0 <= j < i && (#[trigger] v@[j]).0 == k ==> b.1 <= v@[j].1
            },
        decreases v@.len() - i,
    {
        let e = v[i];
        assert(v@.to_set().contains(e));
        if e.0 == k {
            match best {
                Some(b) => {
                    if e.1 < b.1 {
                        best = Some(e);
                    }
                },
                None => {
                    best = Some(e);
                },
            }
        }
        i = i + 1;
    }
    proof {
        if exists|e: ShortEventId| full@.contains((k, e)) {
            let e = choose|e: ShortEventId| full@.contains((k, e));
            assert(v@.to_set().contains((k, e)));
            let j = choose|j: int| 0 <= j < v@.len() && v@[j] == (k, e);
            assert(v@[j].0 == k);
        }
        if let Some(b) = best {
            assert forall|e: ShortEventId| full@.contains((k, e)) implies b.1 <= e by {
                assert(v@.to_set().contains((k, e)));
                let j = choose|j: int| 0 <= j < v@.len() && v@[j] == (k, e);
                assert(v@[j].0 == k);
            }
            lemma_first_at_key(full@, k, b.1);
        }
    }
    best
}

/// The removal a replacing entry brings with it: the entry it replaces, if any.
pub open spec fn replaced_set(replaced: Option<StateEntry>) -> Set<StateEntry> {
    match replaced {
        Some(x) => set![x],
        None => Set::empty(),
    }
}

/// The version a room stays at when an event changes nothing.
pub open spec fn unchanged_state(previous: Option<ShortStateHash>) -> Result<(ShortStateHash, Option<StateDiff>), StateError> {
    match previous {
        Some(p) => Ok((p, None)),
        None => Err(StateError::NoPreviousState),
    }
}

/// The layer a room's state advances by when one event lands, as the new
/// version's short id and the layer to store under it — or the version it
/// stays at, with nothing to store, when the event changes nothing.
///
/// * `previous_shortstatehash` — the room's version before the event
/// * `new` — the event's own entry, `None` for an event that is not state
/// * `states_parents` — the layer stack of the previous version
/// * `next_count` — a fresh counter value, the new version's id
///
/// What the event replaces is the first entry at its state key; an event that
/// replaces itself changes nothing.
pub fn append_to_state(
    previous_shortstatehash: Option<ShortStateHash>,
    new: Option<StateEntry>,
    states_parents: Vec<ShortStateInfo>,
    next_count: ShortStateHash,
) -> (r: Result<(ShortStateHash, Option<StateDiff>), StateError>)
    ensures
        new is None ==> r == unchanged_state(previous_shortstatehash),
        new matches Some(entry) ==> {
            let full = top_full_state(states_parents@);
            let replaced = spec_first_at_key(full, entry.0);
            if replaced == Some(entry) {
                r == unchanged_state(previous_shortstatehash)
            } else {
                &&& match r {
                    Ok((_, stored)) => stored matches Some(layer)
                        && layer_decision(states_parents@, set![entry], replaced_set(replaced), 2)
                            == Ok::<_, StateError>((layer.parent, layer.added@, layer.removed@)),
                    Err(e) => layer_decision(states_parents@, set![entry], replaced_set(replaced), 2)
                        == Err::<(Option<ShortStateHash>, Set<StateEntry>, Set<StateEntry>), _>(e),
                }
                &&& r matches Ok((hash, stored)) ==> {
                    &&& hash == next_count
                    &&& stored is Some
                    &&& (consistent_stack(states_parents@) && unique_keys(full)) ==> stored_layer(
                        states_parents@,
                        stored->0,
                        apply_diff(full, set![entry], replaced_set(replaced)),
                    )
                }
            }
        },
{
    let entry = match new {
        None => {
            return match previous_shortstatehash {
                Some(p) => Ok((p, None)),
                None => Err(StateError::NoPreviousState),
            };
        },
        Some(entry) => entry,
    };
    let ghost full = top_full_state(states_parents@);
    let replaces = if states_parents.len() > 0 {
        let top = states_parents.len() - 1;
        first_at_key(&states_parents[top].full_state, entry.0)
    } else {
        proof {
            assert(!exists|e: ShortEventId| full.contains((entry.0, e)));
        }
        None
    };
    assert(replaces == spec_first_at_key(full, entry.0));
    if replaces == Some(entry) {
        return match previous_shortstatehash {
            Some(p) => Ok((p, None)),
            None => Err(StateError::NoPreviousState),
        };
    }
    let mut statediffnew: CompressedState = BTreeSet::new();
    statediffnew.insert(entry);
    let mut statediffremoved: CompressedState = BTreeSet::new();
    if let Some(x) = replaces {
        statediffremoved.insert(x);
    }
    proof {
        assert(statediffnew@ =~= set![entry]);
        assert(statediffremoved@ =~= replaced_set(replaces));
        lemma_replacement_is_proper(full, entry, replaces);
    }
    match save_state_from_diff(next_count, statediffnew, statediffremoved, 2, states_parents) {
        Ok((hash, stored)) => Ok((hash, Some(stored))),
        Err(e) => Err(e),
    }
}

/// Replacing the first entry at a key by a different one is a proper diff,
/// in a state with one entry per key.
proof fn lemma_replacement_is_proper(full: Set<StateEntry>, entry: StateEntry, replaced: Option<StateEntry>)
    requires
        replaced == spec_first_at_key(full, entry.0),
        replaced != Some(entry),
    ensures
        unique_keys(full) ==> proper_diff(full, set![entry], replaced_set(replaced)),
{
    if unique_keys(full) {
        if full.contains(entry) {
            assert(entry == (entry.0, entry.1));
            assert(full.contains((entry.0, entry.1)));
            let c = choose|c: ShortEventId| full.contains((entry.0, c)) && forall|e2: ShortEventId| full.contains((entry.0, e2)) ==> c <= e2;
            assert(full.contains((entry.0, c)));
            assert((entry.0, c) == entry);
            assert(false);
        }
        assert(set![entry].disjoint(full));
        if let Some(x) = replaced {
            assert(exists|e: ShortEventId| full.contains((entry.0, e)));
            let c = choose|c: ShortEventId| full.contains((entry.0, c)) && forall|e2: ShortEventId| full.contains((entry.0, e2)) ==> c <= e2;
            assert(x == (entry.0, c));
            assert(full.contains(x));
        }
        assert(replaced_set(replaced).subset_of(full));
    }
}

/// The change from the top of a stack to a new state: what it adds and what
/// it removes, everything being added onto an empty stack.
pub open spec fn change_against(stack: Seq<ShortStateInfo>, new_state: Set<StateEntry>) -> (Set<StateEntry>, Set<StateEntry>) {
    if stack.len() > 0 {
        (new_state.difference(top_full_state(stack)), top_full_state(stack).difference(new_state))
    } else {
        (new_state, Set::empty())
    }
}

/// The layering decision for a new state onto a stack, with a sibling size.
pub open spec fn layer_for_state(stack: Seq<ShortStateInfo>, new_state: Set<StateEntry>, diff_to_sibling: int) -> Result<(Option<ShortStateHash>, Set<StateEntry>, Set<StateEntry>), StateError> {
    layer_decision(stack, change_against(stack, new_state).0, change_against(stack, new_state).1, diff_to_sibling)
}

/// What saving a room's new state decides: the change it amounts to against
/// the room's current version, and the layer to store, if the version is new.
///
/// * `previous_shortstatehash` — the room's current version, if it has one
/// * `new_shortstatehash` — the version the new state is known by
/// * `already_existed` — whether that version was known before
/// * `new_state` — the new state
/// * `states_parents` — the layer stack of the current version (empty when
///   there is none or it cannot be loaded)
pub fn save_state(
    previous_shortstatehash: Option<ShortStateHash>,
    new_shortstatehash: ShortStateHash,
    already_existed: bool,
    new_state: CompressedState,
    states_parents: Vec<ShortStateInfo>,
) -> (r: Result<(HashSetCompressStateEvent, Option<StateDiff>), StateError>)
    ensures
        previous_shortstatehash == Some(new_shortstatehash) ==> (r matches Ok((change, stored)) && {
            &&& change.shortstatehash == new_shortstatehash
            &&& change.added@.is_empty()
            &&& change.removed@.is_empty()
            &&& stored is None
        }),
        previous_shortstatehash != Some(new_shortstatehash) ==> {
            &&& already_existed ==> r is Ok
            &&& !already_existed ==> match r {
                Ok((_, stored)) => stored matches Some(layer)
                    && layer_for_state(states_parents@, new_state@, 2) == Ok::<_, StateError>((layer.parent, layer.added@, layer.removed@)),
                Err(e) => layer_for_state(states_parents@, new_state@, 2)
                    == Err::<(Option<ShortStateHash>, Set<StateEntry>, Set<StateEntry>), _>(e),
            }
            &&& r matches Ok((change, stored)) ==> {
                &&& change.shortstatehash == new_shortstatehash
                &&& (states_parents@.len() > 0 ==> {
                    &&& change.added@ == new_state@.difference(top_full_state(states_parents@))
                    &&& change.removed@ == top_full_state(states_parents@).difference(new_state@)
                })
                &&& (states_parents@.len() == 0 ==> change.added@ == new_state@ && change.removed@.is_empty())
                &&& apply_diff(top_full_state(states_parents@), change.added@, change.removed@) == new_state@
                &&& (stored is None <==> already_existed)
                &&& stored matches Some(layer) ==> (consistent_stack(states_parents@) ==> stored_layer(
                    states_parents@,
                    layer,
                    new_state@,
                ))
            }
        },
{
    if previous_shortstatehash == Some(new_shortstatehash) {
        return Ok((
            HashSetCompressStateEvent {
                shortstatehash: new_shortstatehash,
                added: BTreeSet::new(),
                removed: BTreeSet::new(),
            },
            None,
        ));
    }
    let (statediffnew, statediffremoved) = if states_parents.len() > 0 {
        let top = states_parents.len() - 1;
        state_diff(&new_state, &states_parents[top].full_state)
    } else {
        proof {
            assert(apply_diff(Set::empty(), new_state@, Set::empty()) =~= new_state@);
        }
        (new_state, BTreeSet::new())
    };
    let stored = if !already_existed {
        match save_state_from_diff(
            new_shortstatehash,
            statediffnew.clone(),
            statediffremoved.clone(),
            2,
            states_parents,
        ) {
            Ok((_, layer)) => Some(layer),
            Err(e) => return Err(e),
        }
    } else {
        None
    };
    Ok((
        HashSetCompressStateEvent {
            shortstatehash: new_shortstatehash,
            added: statediffnew,
            removed: statediffremoved,
        },
        stored,
    ))
}

/// The layer recorded for the state an event was accepted against, when that
/// state is a version not seen before.
///
/// The diff is taken against the room's current version, and given a sibling
/// size large enough that it is never merged down for its own sake: nothing
/// will be layered on top of a state recorded for one event.
pub fn set_event_state(
    shortstatehash: ShortStateHash,
    already_existed: bool,
    state_ids_compressed: CompressedState,
    states_parents: Vec<ShortStateInfo>,
) -> (r: Result<Option<StateDiff>, StateError>)
    ensures
        already_existed ==> r == Ok::<Option<StateDiff>, StateError>(None),
        !already_existed ==> match r {
            Ok(stored) => stored matches Some(layer)
                && layer_for_state(states_parents@, state_ids_compressed@, 1_000_000) == Ok::<_, StateError>((layer.parent, layer.added@, layer.removed@)),
            Err(e) => layer_for_state(states_parents@, state_ids_compressed@, 1_000_000)
                == Err::<(Option<ShortStateHash>, Set<StateEntry>, Set<StateEntry>), _>(e),
        },
        !already_existed ==> (r matches Ok(stored) ==> {
            &&& stored is Some
            &&& consistent_stack(states_parents@) ==> stored_layer(
                states_parents@,
                stored->0,
                state_ids_compressed@,
            )
        }),
{
    if already_existed {
        return Ok(None);
    }
    let (statediffnew, statediffremoved) = if states_parents.len() > 0 {
        let top = states_parents.len() - 1;
        state_diff(&state_ids_compressed, &states_parents[top].full_state)
    } else {
        proof {
            assert(apply_diff(Set::empty(), state_ids_compressed@, Set::empty()) =~= state_ids_compressed@);
        }
        (state_ids_compressed, BTreeSet::new())
    };
    match save_state_from_diff(shortstatehash, statediffnew, statediffremoved, 1_000_000, states_parents) {
        Ok((_, layer)) => Ok(Some(layer)),
        Err(e) => Err(e),
    }
}

/// How many bytes a state's entries take up.
pub fn compressed_state_size(compressed_state: &CompressedState) -> (size: usize)
    requires
        compressed_state@.len() * 16 <= usize::MAX,
    ensures
        size == compressed_state@.len() * 16,
{
    compressed_state.len() * 16
}

/// The entries of a state that sit at the state keys an event's auth rules
/// name, which are what authorize it.
pub fn auth_entries(full: &CompressedState, wanted: &Vec<ShortStateKey>) -> (r: CompressedState)
    ensures
        r@ == full@.filter(|e: StateEntry| wanted@.contains(e.0)),
{
    let mut keys: BTreeSet<ShortStateKey> = BTreeSet::new();
    let mut i: usize = 0;
    while i < wanted.len()
        invariant
            i <= wanted.len(),
            keys@ == wanted@.take(i as int).to_set(),
        decreases wanted.len() - i,
    {
        keys.insert(wanted[i]);
        proof {
            assert(wanted@.take(i + 1) == wanted@.take(i as int).push(wanted@[i as int]));
            wanted@.take(i as int).lemma_push_to_set_commute(wanted@[i as int]);
        }
        i += 1;
    }
    proof {
        assert(wanted@.take(i as int) == wanted@);
    }
    let v = entries(full);
    let mut r: CompressedState = BTreeSet::new();
    let mut j: usize = 0;
    while j < v.len()
        invariant
            j <= v@.len(),
            v@.to_set() == full@,
            keys@ == wanted@.to_set(),
            r@ == v@.take(j as int).to_set().filter(|e: StateEntry| wanted@.contains(e.0)),
        decreases v@.len() - j,
    {
        let e = v[j];
        if keys.contains(&e.0) {
            r.insert(e);
        }
        proof {
            assert(v@.take(j + 1) == v@.take(j as int).push(e));
            v@.take(j as int).lemma_push_to_set_commute(e);
            assert(r@ =~= v@.take(j + 1).to_set().filter(|e: StateEntry| wanted@.contains(e.0)));
        }
        j += 1;
    }
    proof {
        assert(v@.take(j as int) == v@);
    }
    r
}

} // verus!
