//! Walking a space, one page at a time.
//!
//! The walk is depth-first and deterministic: the same space, asked by the
//! same person with the same parameters, is visited in the same order every
//! time. A page ends by recording the path to the room it stopped at, and the
//! next request re-walks from the root and starts emitting when it reaches
//! that path again. A room is visited once per walk, however many parents name
//! it, so a cycle is never walked forever.
//!
//! The walk here makes the decisions; looking rooms up and describing them is
//! left to the caller, which reports back what it found.

use base64::Engine;
use crate::text_order::texts;
use vstd::prelude::*;

verus! {

/// Where a paginated walk stopped, and the parameters it was asked with.
#[derive(Debug, Clone, PartialEq, Eq)]
pub struct PaginationToken {
    /// The short ids of the rooms from the root down to the room the next
    /// page starts at.
    pub path: Vec<u64>,
    /// The number of rooms in a page.
    pub limit: u64,
    /// How deep the walk descends.
    pub max_depth: u64,
    /// Whether only suggested children are walked.
    pub suggested_only: bool,
}

impl PaginationToken {
    /// Whether two tokens were asked with the same parameters, wherever they
    /// stopped.
    pub fn same_parameters(&self, other: &Self) -> (r: bool)
        ensures
            r == (self.limit == other.limit && self.max_depth == other.max_depth
                && self.suggested_only == other.suggested_only),
    {
        self.limit == other.limit && self.max_depth == other.max_depth
            && self.suggested_only == other.suggested_only
    }
}

/// Whether the URL-safe unpadded base64 text `text` decodes, as the `base64`
/// crate decodes it, and to what.
pub uninterp spec fn base64url_decoded(text: Seq<char>) -> Option<Seq<u8>>;

/// The URL-safe unpadded base64 text the `base64` crate makes of `bytes`.
pub uninterp spec fn base64url_encoded(bytes: Seq<u8>) -> Seq<char>;

/// `base64::engine::general_purpose::URL_SAFE_NO_PAD.decode`.
///
/// Claimed: the result is the name `base64url_decoded` applied to the text.
#[verifier::external_body]
fn base64url_decode(text: &str) -> (r: Option<Vec<u8>>)
    ensures
        match r {
            Some(b) => base64url_decoded(text@) == Some(b@),
            None => base64url_decoded(text@) is None,
        },
{
    base64::engine::general_purpose::URL_SAFE_NO_PAD.decode(text).ok()
}

/// `base64::engine::general_purpose::URL_SAFE_NO_PAD.encode`.
///
/// Claimed: the result is the name `base64url_encoded` applied to the bytes,
/// and decoding it gives the bytes back, as the engine's encoding is canonical.
#[verifier::external_body]
fn base64url_encode(bytes: &[u8]) -> (r: String)
    ensures
        r@ == base64url_encoded(bytes@),
        base64url_decoded(r@) == Some(bytes@),
{
    base64::engine::general_purpose::URL_SAFE_NO_PAD.encode(bytes)
}

/// Why a hierarchy request is refused.
#[derive(Debug, Clone, Copy, PartialEq, Eq, Structural)]
pub enum HierarchyError {
    /// The pagination token is not base64 that decodes.
    InvalidToken,
    /// The request changed `limit`, `max_depth` or `suggested_only` while
    /// paginating.
    ChangedParameters,
}

/// The bytes of the JSON a pagination token carries.
pub fn decode_token_text(token: &str) -> (r: Result<Vec<u8>, HierarchyError>)
    ensures
        match r {
            Ok(b) => base64url_decoded(token@) == Some(b@),
            Err(e) => base64url_decoded(token@) is None && e == HierarchyError::InvalidToken,
        },
{
    match base64url_decode(token) {
        Some(bytes) => Ok(bytes),
        None => Err(HierarchyError::InvalidToken),
    }
}

/// The text of a pagination token, from the bytes of its JSON.
pub fn encode_token_text(json: &[u8]) -> (r: String)
    ensures
        r@ == base64url_encoded(json@),
        base64url_decoded(r@) == Some(json@),
{
    base64url_encode(json)
}

/// A child that a space names: the room and the servers to reach it by.
#[derive(Debug, Clone, PartialEq, Eq)]
pub struct SpaceChild {
    /// The child room's id.
    pub room_id: String,
    /// The servers to reach it by.
    pub via: Vec<String>,
    /// Whether the space suggests it.
    pub suggested: bool,
}

/// The values of `v` in the opposite order.
pub fn reversed<T>(v: Vec<T>) -> (r: Vec<T>)
    ensures
        r@ == v@.reverse(),
{
    let ghost all = v@;
    let mut rest = v;
    let mut r: Vec<T> = Vec::new();
    while rest.len() > 0
        invariant
            all == rest@ + r@.reverse(),
        decreases rest.len(),
    {
        let ghost before = rest@;
        let x = rest.pop().unwrap();
        proof {
            assert(before == rest@.push(x));
            assert(r@.push(x).reverse() == seq![x] + r@.reverse());
            assert(all == rest@ + r@.push(x).reverse());
        }
        r.push(x);
    }
    proof {
        assert(all == r@.reverse());
        assert(r@ == r@.reverse().reverse());
    }
    r
}

/// The children of a space that a walk goes into: all of them, or the
/// suggested ones where only those were asked for.
pub fn children_of(children: Vec<SpaceChild>, suggested_only: bool) -> (r: Vec<SpaceChild>)
    ensures
        r@ == children@.filter(|c: SpaceChild| !suggested_only || c.suggested),
{
    let ghost keep = |c: SpaceChild| !suggested_only || c.suggested;
    let ghost all = children@;
    let mut rest = reversed(children);
    let mut r: Vec<SpaceChild> = Vec::new();
    let mut n: usize = 0;
    proof {
        assert(rest@.len() == all.len());
        assert(rest@.len() == rest.len());
    }
    while rest.len() > 0
        invariant
            keep == (|c: SpaceChild| !suggested_only || c.suggested),
            n + rest.len() == all.len(),
            all.len() <= usize::MAX,
            rest@ == all.skip(n as int).reverse(),
            r@ == all.take(n as int).filter(keep),
        decreases rest.len(),
    {
        let ghost before = rest@;
        let c = rest.pop().unwrap();
        proof {
            assert(all[n as int] == c) by {
                assert(before.last() == all.skip(n as int).reverse().last());
            }
            assert(rest@ == all.skip(n + 1).reverse()) by {
                assert(all.skip(n + 1) == all.skip(n as int).drop_first());
            }
            assert(all.take(n + 1).drop_last() == all.take(n as int));
            reveal(Seq::filter);
        }
        if !suggested_only || c.suggested {
            r.push(c);
        }
        n += 1;
    }
    proof {
        assert(all.take(n as int) == all);
    }
    r
}

/// A room of the walk whose children are yet to be walked.
#[derive(Debug)]
pub struct Visit {
    /// The room's short id.
    pub short: u64,
    /// Its children still to visit, the next one last.
    pub pending: Vec<SpaceChild>,
}

/// The short ids of the rooms on a stack of visits, from the root down.
pub open spec fn stack_path(stack: Seq<Visit>) -> Seq<u64> {
    stack.map_values(|v: Visit| v.short)
}

/// The stack without the rooms on its top whose children are all walked.
pub open spec fn unwound(stack: Seq<Visit>) -> Seq<Visit>
    decreases stack.len(),
{
    if stack.len() == 0 {
        stack
    } else if stack.last().pending.len() == 0 {
        unwound(stack.drop_last())
    } else {
        stack
    }
}

/// What a walk does with a room it arrives at.
#[derive(Debug)]
pub enum Arrival {
    /// The room goes on the page.
    Emit,
    /// The room is before the page's start; it is walked through but not
    /// shown.
    Pass,
    /// The page is full; the next one starts at this room.
    Stop(PaginationToken),
}

/// What a page walk does with one room it arrives at.
#[derive(Debug, Clone, Copy, PartialEq, Eq, Structural)]
pub enum PageStep {
    /// The room goes on the page.
    Emit,
    /// The room is before the page's start.
    Pass,
    /// The page is full; the next one starts at this room.
    Stop,
}

/// What a page walk does on arriving at the room at `path`, given whether it
/// emits already, how many rooms its page holds, its page size, and the path
/// its page starts at: whether it emits from then on, the rooms its page
/// holds after, and what it does with the room.
pub open spec fn arrival_step(emitting: bool, emitted: nat, limit: nat, target: Option<Seq<u64>>, path: Seq<u64>) -> (bool, nat, PageStep) {
    let e = emitting || target == Some(path);
    if e && emitted >= limit {
        (e, emitted, PageStep::Stop)
    } else if e {
        (e, emitted + 1, PageStep::Emit)
    } else {
        (e, emitted, PageStep::Pass)
    }
}

/// The rooms a page walk puts on its page as it arrives, in turn, at the
/// rooms at `paths`, from the given state, up to where it stops.
pub open spec fn page_rooms_from(paths: Seq<Seq<u64>>, limit: nat, target: Option<Seq<u64>>, emitting: bool, emitted: nat) -> Seq<Seq<u64>>
    decreases paths.len(),
{
    if paths.len() == 0 {
        Seq::empty()
    } else {
        let (e, n, step) = arrival_step(emitting, emitted, limit, target, paths[0]);
        match step {
            PageStep::Stop => Seq::empty(),
            PageStep::Emit => seq![paths[0]] + page_rooms_from(paths.drop_first(), limit, target, e, n),
            PageStep::Pass => page_rooms_from(paths.drop_first(), limit, target, e, n),
        }
    }
}

/// Where a page walk over the rooms at `paths` stops, from the given state:
/// the path of the room the next page starts at, if the page fills before
/// the walk ends.
pub open spec fn page_stop_from(paths: Seq<Seq<u64>>, limit: nat, target: Option<Seq<u64>>, emitting: bool, emitted: nat) -> Option<Seq<u64>>
    decreases paths.len(),
{
    if paths.len() == 0 {
        None
    } else {
        let (e, n, step) = arrival_step(emitting, emitted, limit, target, paths[0]);
        match step {
            PageStep::Stop => Some(paths[0]),
            _ => page_stop_from(paths.drop_first(), limit, target, e, n),
        }
    }
}

/// The rooms of the page that starts at `target` (the first page for
/// `None`), where the walk arrives at the rooms at `paths` in turn.
pub open spec fn page_rooms(paths: Seq<Seq<u64>>, limit: nat, target: Option<Seq<u64>>) -> Seq<Seq<u64>> {
    page_rooms_from(paths, limit, target, target is None, 0)
}

/// Where the page that starts at `target` stops.
pub open spec fn page_stop(paths: Seq<Seq<u64>>, limit: nat, target: Option<Seq<u64>>) -> Option<Seq<u64>> {
    page_stop_from(paths, limit, target, target is None, 0)
}

/// A walk that already emits puts the next rooms on its page until it holds
/// `limit`, and stops at the room after.
proof fn lemma_emitting_page(paths: Seq<Seq<u64>>, limit: nat, target: Option<Seq<u64>>, emitted: nat)
    requires
        emitted <= limit,
    ensures
        page_rooms_from(paths, limit, target, true, emitted) == paths.take(
            if paths.len() <= limit - emitted { paths.len() as int } else { limit - emitted },
        ),
        page_stop_from(paths, limit, target, true, emitted) == if paths.len() > limit - emitted {
            Some(paths[limit - emitted])
        } else {
            None
        },
    decreases paths.len(),
{
    if paths.len() == 0 {
        assert(paths.take(0) =~= Seq::<Seq<u64>>::empty());
    } else if emitted >= limit {
        assert(paths.take(0) =~= Seq::<Seq<u64>>::empty());
    } else {
        lemma_emitting_page(paths.drop_first(), limit, target, emitted + 1);
        let rest = paths.drop_first();
        let m = if paths.len() <= limit - emitted { paths.len() as int } else { limit - emitted };
        assert(seq![paths[0]] + rest.take(m - 1) =~= paths.take(m));
        if paths.len() > limit - emitted {
            assert(rest[limit - emitted - 1] == paths[limit - emitted]);
        }
    }
}

/// A walk that waits for its start passes the rooms before it: what it does
/// is what it does from the start on.
proof fn lemma_passing_page(paths: Seq<Seq<u64>>, limit: nat, t: Seq<u64>, j: int)
    requires
        0 <= j < paths.len(),
        paths[j] == t,
        forall|i: int| 0 <= i < j ==> paths[i] != t,
    ensures
        page_rooms_from(paths, limit, Some(t), false, 0) == page_rooms_from(paths.skip(j), limit, Some(t), false, 0),
        page_stop_from(paths, limit, Some(t), false, 0) == page_stop_from(paths.skip(j), limit, Some(t), false, 0),
    decreases j,
{
    if j == 0 {
        assert(paths.skip(0) =~= paths);
    } else {
        let rest = paths.drop_first();
        assert forall|i: int| 0 <= i < j - 1 implies rest[i] != t by {
            assert(rest[i] == paths[i + 1]);
        }
        lemma_passing_page(rest, limit, t, j - 1);
        assert(rest.skip(j - 1) =~= paths.skip(j));
    }
}

/// Paging goes on where it stopped. Where the rooms a walk arrives at come in
/// the same order every time, each once (which is what the walk's single
/// visits and the rooms' unchanged state give), the first page followed by
/// the page its stop names is the start of the whole walk, repeating and
/// skipping nothing: the first page holds `limit` rooms, the second holds
/// `limit` or all that is left. A walk that never stops is one page of all
/// the rooms.
pub proof fn lemma_next_page_resumes(paths: Seq<Seq<u64>>, limit: nat)
    requires
        paths.no_duplicates(),
        limit >= 1,
    ensures
        page_stop(paths, limit, None) is None ==> page_rooms(paths, limit, None) == paths,
        page_stop(paths, limit, None) matches Some(t) ==> {
            let first = page_rooms(paths, limit, None);
            let second = page_rooms(paths, limit, Some(t));
            &&& first + second == paths.take((first.len() + second.len()) as int)
            &&& first.len() == limit
            &&& (second.len() == limit || first.len() + second.len() == paths.len())
        },
{
    lemma_emitting_page(paths, limit, None, 0);
    if paths.len() <= limit {
        assert(paths.take(paths.len() as int) =~= paths);
    } else {
        let t = paths[limit as int];
        let j = limit as int;
        assert forall|i: int| 0 <= i < j implies paths[i] != t by {
            assert(paths[i] != paths[j]);
        }
        lemma_passing_page(paths, limit, t, j);
        let tail = paths.skip(j);
        assert(tail[0] == t);
        lemma_emitting_page(tail.drop_first(), limit, Some(t), 1);
        let first = page_rooms(paths, limit, None);
        let second = page_rooms(paths, limit, Some(t));
        let m = if tail.len() <= limit { tail.len() as int } else { limit as int };
        assert(second =~= seq![t] + tail.drop_first().take(m - 1));
        assert(second =~= tail.take(m));
        assert(first =~= paths.take(j));
        assert(first + second =~= paths.take(j + m));
    }
}

/// A page walk that emits and holds its full page puts nothing more on it.
proof fn lemma_full_page(rest: Seq<Seq<u64>>, limit: nat, target: Option<Seq<u64>>, emitted: nat)
    requires
        emitted >= limit,
    ensures
        page_rooms_from(rest, limit, target, true, emitted) == Seq::<Seq<u64>>::empty(),
{
}

/// Arriving at one more room carries a page walk over the rooms arrived at
/// one room on: the page grows by the room where it goes on the page, and
/// the walk stops at the room where its page is full.
proof fn lemma_page_after_arrival(
    arrived: Seq<Seq<u64>>,
    page: Seq<Seq<u64>>,
    stop: Option<Seq<u64>>,
    limit: nat,
    target: Option<Seq<u64>>,
    emitting: bool,
    emitted: nat,
    p: Seq<u64>,
)
    requires
        forall|rest: Seq<Seq<u64>>| #[trigger] page_rooms_from(arrived + rest, limit, target, target is None, 0)
            == page + page_rooms_from(rest, limit, target, emitting, emitted),
        forall|rest: Seq<Seq<u64>>| #[trigger] page_stop_from(arrived + rest, limit, target, target is None, 0)
            == match stop {
                Some(t) => Some(t),
                None => page_stop_from(rest, limit, target, emitting, emitted),
            },
        stop is Some ==> emitting && emitted >= limit,
    ensures
        ({
            let (e, n, step) = arrival_step(emitting, emitted, limit, target, p);
            let page1 = if step is Emit { page.push(p) } else { page };
            let stop1 = if step is Stop && stop is None { Some(p) } else { stop };
            &&& forall|rest: Seq<Seq<u64>>| #[trigger] page_rooms_from(arrived.push(p) + rest, limit, target, target is None, 0)
                == page1 + page_rooms_from(rest, limit, target, e, n)
            &&& forall|rest: Seq<Seq<u64>>| #[trigger] page_stop_from(arrived.push(p) + rest, limit, target, target is None, 0)
                == match stop1 {
                    Some(t) => Some(t),
                    None => page_stop_from(rest, limit, target, e, n),
                }
            &&& stop1 is Some ==> e && n >= limit
        }),
{
    let (e, n, step) = arrival_step(emitting, emitted, limit, target, p);
    let page1 = if step is Emit { page.push(p) } else { page };
    let stop1 = if step is Stop && stop is None { Some(p) } else { stop };
    assert forall|rest: Seq<Seq<u64>>| #[trigger] page_rooms_from(arrived.push(p) + rest, limit, target, target is None, 0)
        == page1 + page_rooms_from(rest, limit, target, e, n) by {
        let r2 = seq![p] + rest;
        assert(arrived.push(p) + rest =~= arrived + r2);
        assert(page_rooms_from(arrived + r2, limit, target, target is None, 0)
            == page + page_rooms_from(r2, limit, target, emitting, emitted));
        assert(r2[0] == p);
        assert(r2.drop_first() =~= rest);
        if step is Stop {
            lemma_full_page(rest, limit, target, n);
            assert(page + Seq::<Seq<u64>>::empty() =~= page);
        } else if step is Emit {
            assert(page + (seq![p] + page_rooms_from(rest, limit, target, e, n))
                =~= page.push(p) + page_rooms_from(rest, limit, target, e, n));
        }
    }
    assert forall|rest: Seq<Seq<u64>>| #[trigger] page_stop_from(arrived.push(p) + rest, limit, target, target is None, 0)
        == match stop1 {
            Some(t) => Some(t),
            None => page_stop_from(rest, limit, target, e, n),
        } by {
        let r2 = seq![p] + rest;
        assert(arrived.push(p) + rest =~= arrived + r2);
        assert(page_stop_from(arrived + r2, limit, target, target is None, 0)
            == match stop {
                Some(t) => Some(t),
                None => page_stop_from(r2, limit, target, emitting, emitted),
            });
        assert(r2[0] == p);
        assert(r2.drop_first() =~= rest);
    }
}

/// One walk through a space for one page of its hierarchy.
pub struct HierarchyWalk {
    /// The number of rooms in a page.
    pub limit: u64,
    /// How deep the walk descends.
    pub max_depth: u64,
    /// Whether only suggested children are walked.
    pub suggested_only: bool,
    /// The path the page starts at, when resuming.
    pub target: Option<Vec<u64>>,
    /// Whether the walk has reached the page's start.
    pub emitting: bool,
    /// How many rooms the page holds so far.
    pub emitted: u64,
    /// The short ids of the rooms visited so far.
    pub visited: Vec<u64>,
    /// The rooms whose children are being walked, from the root down.
    pub stack: Vec<Visit>,
    /// The room just visited for the first time, which the walk may arrive
    /// at next.
    pub fresh: Ghost<Option<u64>>,
    /// The paths of the rooms the walk arrived at, in turn.
    pub arrived: Ghost<Seq<Seq<u64>>>,
    /// The paths of the rooms the walk put on its page, in turn.
    pub page: Ghost<Seq<Seq<u64>>>,
    /// The path of the room the walk stopped at, once it has.
    pub stop: Ghost<Option<Seq<u64>>>,
}

/// Whether two paths are the same.
fn same_path(a: &Vec<u64>, b: &Vec<u64>) -> (r: bool)
    ensures
        r == (a@ == b@),
{
    if a.len() != b.len() {
        return false;
    }
    let mut i: usize = 0;
    while i < a.len()
        invariant
            a.len() == b.len(),
            i <= a.len(),
            forall|j: int| 0 <= j < i ==> a@[j] == b@[j],
        decreases a.len() - i,
    {
        if a[i] != b[i] {
            return false;
        }
        i += 1;
    }
    proof {
        assert(a@ =~= b@);
    }
    true
}

impl HierarchyWalk {
    /// The path a page started at, as a sequence.
    pub open spec fn target_path(&self) -> Option<Seq<u64>> {
        match self.target {
            Some(t) => Some(t@),
            None => None,
        }
    }

    /// What every walk keeps: each room is visited once, the page never
    /// holds more than `limit` rooms, and no room deeper than `max_depth` is
    /// descended into.
    pub open spec fn wf(&self) -> bool {
        &&& self.visited@.no_duplicates()
        &&& self.emitted <= self.limit
        &&& self.stack.len() <= self.max_depth
        &&& forall|i: int| 0 <= i < self.arrived@.len() ==> (#[trigger] self.arrived@[i]).len() > 0
            && self.visited@.contains(self.arrived@[i].last())
        &&& forall|i: int, j: int| 0 <= i < j < self.arrived@.len()
            ==> (#[trigger] self.arrived@[i]).last() != (#[trigger] self.arrived@[j]).last()
        &&& self.fresh@ matches Some(x) ==> self.visited@.contains(x)
            && forall|i: int| 0 <= i < self.arrived@.len() ==> (#[trigger] self.arrived@[i]).last() != x
        &&& self.follows_pages()
    }

    /// The walk's page is the page walk over the rooms it arrived at: for
    /// whatever rooms it arrives at next, its page and stop come out as the
    /// page walk's over all of them; once stopped, it stays so.
    pub open spec fn follows_pages(&self) -> bool {
        let limit = self.limit as nat;
        let target = self.target_path();
        &&& forall|rest: Seq<Seq<u64>>| #[trigger] page_rooms_from(self.arrived@ + rest, limit, target, target is None, 0)
            == self.page@ + page_rooms_from(rest, limit, target, self.emitting, self.emitted as nat)
        &&& forall|rest: Seq<Seq<u64>>| #[trigger] page_stop_from(self.arrived@ + rest, limit, target, target is None, 0)
            == match self.stop@ {
                Some(t) => Some(t),
                None => page_stop_from(rest, limit, target, self.emitting, self.emitted as nat),
            }
        &&& self.stop@ is Some ==> self.emitting && self.emitted >= self.limit
    }

    /// A walk arrives at each room once, by one path: the paths it arrives at
    /// are all different.
    pub proof fn lemma_arrived_paths_distinct(&self)
        requires
            self.wf(),
        ensures
            self.arrived@.no_duplicates(),
    {
        assert forall|i: int, j: int| 0 <= i < j < self.arrived@.len() implies self.arrived@[i] != self.arrived@[j] by {
            assert(self.arrived@[i].last() != self.arrived@[j].last());
        }
    }

    /// A walk that is over (stopped, or arrived at every room of `whole`,
    /// of which it arrived at the first ones) holds the page, and names the
    /// stop, that the page walk over `whole` gives.
    proof fn lemma_finished_walk_page(&self, whole: Seq<Seq<u64>>)
        requires
            self.wf(),
            whole.take(self.arrived@.len() as int) == self.arrived@,
            self.arrived@.len() <= whole.len(),
            self.stop@ is Some || self.arrived@ == whole,
        ensures
            self.page@ == page_rooms(whole, self.limit as nat, self.target_path()),
            self.stop@ == page_stop(whole, self.limit as nat, self.target_path()),
    {
        let limit = self.limit as nat;
        let target = self.target_path();
        let rest = whole.skip(self.arrived@.len() as int);
        assert(self.arrived@ + rest =~= whole);
        assert(page_rooms_from(self.arrived@ + rest, limit, target, target is None, 0)
            == self.page@ + page_rooms_from(rest, limit, target, self.emitting, self.emitted as nat));
        assert(page_stop_from(self.arrived@ + rest, limit, target, target is None, 0)
            == match self.stop@ {
                Some(t) => Some(t),
                None => page_stop_from(rest, limit, target, self.emitting, self.emitted as nat),
            });
        if self.stop@ is Some {
            lemma_full_page(rest, limit, target, self.emitted as nat);
        } else {
            assert(rest =~= Seq::<Seq<u64>>::empty());
        }
        assert(self.page@ + Seq::<Seq<u64>>::empty() =~= self.page@);
    }

    /// Paging goes on where it stopped. Take a walk with no page limit over
    /// a space that stays as it is (`whole`), which arrives at every room,
    /// each once, and two walks over that space that are over: `first`
    /// for the first page, and `second` for the page that the first one's
    /// stop names, of the same size, each arriving at the rooms in the same
    /// order as `whole` does. Then the first page followed by the second is
    /// the start of the whole walk, repeating and skipping nothing: the first
    /// holds `limit` rooms, the second `limit` or all that are left. A first
    /// walk that never stops holds all the rooms.
    pub proof fn lemma_walk_pages_resume(first: &Self, second: &Self, whole: &Self)
        requires
            first.wf(),
            second.wf(),
            whole.wf(),
            first.limit >= 1,
            second.limit == first.limit,
            first.target_path() is None,
            second.target_path() == first.stop@,
            first.arrived@.len() <= whole.arrived@.len(),
            whole.arrived@.take(first.arrived@.len() as int) == first.arrived@,
            second.arrived@.len() <= whole.arrived@.len(),
            whole.arrived@.take(second.arrived@.len() as int) == second.arrived@,
            first.stop@ is Some || first.arrived@ == whole.arrived@,
            second.stop@ is Some || second.arrived@ == whole.arrived@,
        ensures
            first.stop@ is None ==> first.page@ == whole.arrived@,
            first.stop@ is Some ==> {
                &&& first.page@ + second.page@ == whole.arrived@.take((first.page@.len() + second.page@.len()) as int)
                &&& first.page@.len() == first.limit
                &&& (second.page@.len() == first.limit || first.page@.len() + second.page@.len() == whole.arrived@.len())
            },
    {
        let paths = whole.arrived@;
        whole.lemma_arrived_paths_distinct();
        first.lemma_finished_walk_page(paths);
        lemma_next_page_resumes(paths, first.limit as nat);
        if first.stop@ is Some {
            second.lemma_finished_walk_page(paths);
        }
    }

    /// Starts a walk at the room with short id `root`, for a first page or
    /// for the page a token names. A token asked with other parameters is
    /// refused.
    pub fn start(root: u64, limit: u64, max_depth: u64, suggested_only: bool, resume: Option<PaginationToken>) -> (r: Result<HierarchyWalk, HierarchyError>)
        ensures
            match r {
                Ok(w) => {
                    &&& w.wf()
                    &&& (resume matches Some(t) ==> t.limit == limit && t.max_depth == max_depth && t.suggested_only == suggested_only)
                    &&& w.limit == limit && w.max_depth == max_depth && w.suggested_only == suggested_only
                    &&& w.target_path() == match resume { Some(t) => Some(t.path@), None => None::<Seq<u64>> }
                    &&& w.emitting == resume is None
                    &&& w.emitted == 0
                    &&& w.visited@ == seq![root]
                    &&& w.stack@.len() == 0
                    &&& w.fresh@ == Some(root)
                    &&& w.arrived@.len() == 0
                    &&& w.page@.len() == 0
                    &&& w.stop@ is None
                },
                Err(e) => {
                    &&& e == HierarchyError::ChangedParameters
                    &&& resume matches Some(t)
                    &&& !(t.limit == limit && t.max_depth == max_depth && t.suggested_only == suggested_only)
                },
            },
    {
        let target = match resume {
            Some(t) => {
                if !(t.limit == limit && t.max_depth == max_depth && t.suggested_only == suggested_only) {
                    return Err(HierarchyError::ChangedParameters);
                }
                Some(t.path)
            },
            None => None,
        };
        let emitting = target.is_none();
        let mut visited: Vec<u64> = Vec::new();
        visited.push(root);
        proof {
            assert(visited@[0] == root);
        }
        let r = HierarchyWalk {
            limit,
            max_depth,
            suggested_only,
            target,
            emitting,
            emitted: 0,
            visited,
            stack: Vec::new(),
            fresh: Ghost(Some(root)),
            arrived: Ghost(Seq::empty()),
            page: Ghost(Seq::empty()),
            stop: Ghost(None),
        };
        proof {
            let w = r;
            assert forall|rest: Seq<Seq<u64>>| #[trigger] page_rooms_from(w.arrived@ + rest, w.limit as nat, w.target_path(), w.target_path() is None, 0)
                == w.page@ + page_rooms_from(rest, w.limit as nat, w.target_path(), w.emitting, w.emitted as nat) by {
                assert(w.arrived@ + rest =~= rest);
                assert(w.page@ + page_rooms_from(rest, w.limit as nat, w.target_path(), w.emitting, w.emitted as nat)
                    =~= page_rooms_from(rest, w.limit as nat, w.target_path(), w.emitting, w.emitted as nat));
            }
            assert forall|rest: Seq<Seq<u64>>| #[trigger] page_stop_from(w.arrived@ + rest, w.limit as nat, w.target_path(), w.target_path() is None, 0)
                == page_stop_from(rest, w.limit as nat, w.target_path(), w.emitting, w.emitted as nat) by {
                assert(w.arrived@ + rest =~= rest);
            }
        }
        Ok(r)
    }

    /// Marks a room visited, and says whether this is its first visit.
    pub fn first_visit(&mut self, short: u64) -> (r: bool)
        requires
            old(self).wf(),
        ensures
            final(self).wf(),
            r == !old(self).visited@.contains(short),
            final(self).visited@ == if r { old(self).visited@.push(short) } else { old(self).visited@ },
            final(self).fresh@ == if r { Some(short) } else { None },
            final(self).arrived@ == old(self).arrived@,
            final(self).page@ == old(self).page@,
            final(self).stop@ == old(self).stop@,
            final(self).stack@ == old(self).stack@,
            final(self).emitted == old(self).emitted,
            final(self).emitting == old(self).emitting,
            final(self).limit == old(self).limit,
            final(self).max_depth == old(self).max_depth,
            final(self).suggested_only == old(self).suggested_only,
            final(self).target_path() == old(self).target_path(),
    {
        let mut i: usize = 0;
        while i < self.visited.len()
            invariant
                *self == *old(self),
                self.wf(),
                i <= self.visited.len(),
                forall|j: int| 0 <= j < i ==> self.visited@[j] != short,
            decreases self.visited.len() - i,
        {
            if self.visited[i] == short {
                proof {
                    assert(self.visited@[i as int] == short);
                    self.fresh@ = None;
                }
                return false;
            }
            i += 1;
        }
        self.visited.push(short);
        proof {
            assert(!old(self).visited@.contains(short));
            self.fresh@ = Some(short);
            assert(self.visited@[old(self).visited@.len() as int] == short);
            assert forall|k: int| 0 <= k < self.arrived@.len() implies (#[trigger] self.arrived@[k]).len() > 0
                && self.visited@.contains(self.arrived@[k].last()) by {
                assert(old(self).arrived@[k] == self.arrived@[k]);
                let m = choose|m: int| 0 <= m < old(self).visited@.len() && old(self).visited@[m] == self.arrived@[k].last();
                assert(self.visited@[m] == old(self).visited@[m]);
            }
        }
        true
    }

    /// The next child to visit, unwinding finished rooms on the way; none
    /// once the walk is over.
    pub fn next_child(&mut self) -> (r: Option<SpaceChild>)
        requires
            old(self).wf(),
        ensures
            final(self).wf(),
            match r {
                Some(c) => {
                    let u = unwound(old(self).stack@);
                    &&& u.len() > 0
                    &&& c == u.last().pending@.last()
                    &&& final(self).stack@ == u.drop_last().push(Visit { short: u.last().short, pending: final(self).stack@.last().pending })
                    &&& final(self).stack@.last().pending@ == u.last().pending@.drop_last()
                },
                None => unwound(old(self).stack@).len() == 0 && final(self).stack@.len() == 0,
            },
            final(self).visited@ == old(self).visited@,
            final(self).fresh@ == old(self).fresh@,
            final(self).arrived@ == old(self).arrived@,
            final(self).page@ == old(self).page@,
            final(self).stop@ == old(self).stop@,
            final(self).emitted == old(self).emitted,
            final(self).emitting == old(self).emitting,
            final(self).limit == old(self).limit,
            final(self).max_depth == old(self).max_depth,
            final(self).suggested_only == old(self).suggested_only,
            final(self).target_path() == old(self).target_path(),
    {
        while self.stack.len() > 0
            invariant
                self.wf(),
                unwound(self.stack@) == unwound(old(self).stack@),
                self.visited@ == old(self).visited@,
                self.fresh@ == old(self).fresh@,
                self.arrived@ == old(self).arrived@,
                self.page@ == old(self).page@,
                self.stop@ == old(self).stop@,
                self.emitted == old(self).emitted,
                self.emitting == old(self).emitting,
                self.limit == old(self).limit,
                self.max_depth == old(self).max_depth,
                self.suggested_only == old(self).suggested_only,
                self.target_path() == old(self).target_path(),
            decreases self.stack.len(),
        {
            let ghost before = self.stack@;
            let mut visit = self.stack.pop().unwrap();
            proof {
                assert(before == self.stack@.push(visit));
                assert(before.drop_last() == self.stack@);
            }
            let ghost pending_before = visit.pending@;
            match visit.pending.pop() {
                Some(child) => {
                    let ghost short = visit.short;
                    self.stack.push(visit);
                    proof {
                        assert(pending_before.len() > 0);
                        assert(unwound(before) == before);
                        assert(self.stack@.drop_last() == before.drop_last());
                    }
                    return Some(child);
                },
                None => {
                    proof {
                        assert(unwound(before) == unwound(self.stack@));
                    }
                },
            }
        }
        None
    }

    /// The path to a room the walk is at: the rooms on the stack, then it.
    pub fn path_to(&self, short: u64) -> (r: Vec<u64>)
        ensures
            r@ == stack_path(self.stack@).push(short),
    {
        let mut path: Vec<u64> = Vec::new();
        let mut i: usize = 0;
        while i < self.stack.len()
            invariant
                i <= self.stack.len(),
                path@ == stack_path(self.stack@.take(i as int)),
            decreases self.stack.len() - i,
        {
            proof {
                assert(self.stack@.take(i + 1) == self.stack@.take(i as int).push(self.stack@[i as int]));
            }
            path.push(self.stack[i].short);
            i += 1;
        }
        proof {
            assert(self.stack@.take(i as int) == self.stack@);
        }
        path.push(short);
        path
    }

    /// Arrives at a room, first visited and described, whose children in the
    /// walk's order are `children`. The walk starts emitting once it reaches
    /// the page's start; a full page stops it at this room. A room below
    /// `max_depth` is descended into.
    pub fn arrive(&mut self, short: u64, children: Vec<SpaceChild>) -> (r: Arrival)
        requires
            old(self).wf(),
            old(self).fresh@ == Some(short),
        ensures
            final(self).wf(),
            final(self).fresh@ is None,
            final(self).arrived@ == old(self).arrived@.push(stack_path(old(self).stack@).push(short)),
            final(self).page@ == if r is Emit {
                old(self).page@.push(stack_path(old(self).stack@).push(short))
            } else {
                old(self).page@
            },
            final(self).stop@ == if r is Stop && old(self).stop@ is None {
                Some(stack_path(old(self).stack@).push(short))
            } else {
                old(self).stop@
            },
            ({
                let path = stack_path(old(self).stack@).push(short);
                let emitting = old(self).emitting || old(self).target_path() == Some(path);
                &&& final(self).emitting == emitting
                &&& match r {
                    Arrival::Stop(t) => {
                        &&& emitting && old(self).emitted >= old(self).limit
                        &&& t.path@ == path
                        &&& t.limit == old(self).limit
                        &&& t.max_depth == old(self).max_depth
                        &&& t.suggested_only == old(self).suggested_only
                        &&& final(self).emitted == old(self).emitted
                        &&& final(self).stack@ == old(self).stack@
                    },
                    Arrival::Emit => {
                        &&& emitting && old(self).emitted < old(self).limit
                        &&& final(self).emitted == old(self).emitted + 1
                    },
                    Arrival::Pass => {
                        &&& !emitting
                        &&& final(self).emitted == old(self).emitted
                    },
                }
                &&& !(r is Stop) ==> final(self).stack@ == if old(self).stack.len() < old(self).max_depth {
                    old(self).stack@.push(Visit { short, pending: final(self).stack@.last().pending })
                } else {
                    old(self).stack@
                }
                &&& !(r is Stop) && old(self).stack.len() < old(self).max_depth ==> final(self).stack@.last().pending@ == children@.reverse()
            }),
            ({
                let (e, n, step) = arrival_step(
                    old(self).emitting,
                    old(self).emitted as nat,
                    old(self).limit as nat,
                    old(self).target_path(),
                    stack_path(old(self).stack@).push(short),
                );
                &&& final(self).emitting == e
                &&& final(self).emitted == n
                &&& step == match r {
                    Arrival::Emit => PageStep::Emit,
                    Arrival::Pass => PageStep::Pass,
                    Arrival::Stop(_) => PageStep::Stop,
                }
            }),
            final(self).visited@ == old(self).visited@,
            final(self).limit == old(self).limit,
            final(self).max_depth == old(self).max_depth,
            final(self).suggested_only == old(self).suggested_only,
            final(self).target_path() == old(self).target_path(),
    {
        let path = self.path_to(short);
        proof {
            lemma_page_after_arrival(
                old(self).arrived@,
                old(self).page@,
                old(self).stop@,
                old(self).limit as nat,
                old(self).target_path(),
                old(self).emitting,
                old(self).emitted as nat,
                path@,
            );
            self.arrived@ = self.arrived@.push(path@);
            self.fresh@ = None;
            let a = self.arrived@;
            assert(a.last().last() == short);
            assert forall|i: int| 0 <= i < a.len() implies (#[trigger] a[i]).len() > 0 && self.visited@.contains(a[i].last()) by {
                if i < a.len() - 1 {
                    assert(a[i] == old(self).arrived@[i]);
                }
            }
            assert forall|i: int, j: int| 0 <= i < j < a.len() implies (#[trigger] a[i]).last() != (#[trigger] a[j]).last() by {
                assert(a[i] == old(self).arrived@[i]);
                if j < a.len() - 1 {
                    assert(a[j] == old(self).arrived@[j]);
                }
            }
        }
        let reached = match &self.target {
            Some(t) => same_path(t, &path),
            None => false,
        };
        self.emitting = self.emitting || reached;
        let mut outcome = Arrival::Pass;
        if self.emitting {
            if self.emitted >= self.limit {
                proof {
                    if self.stop@ is None {
                        self.stop@ = Some(path@);
                    }
                }
                return Arrival::Stop(PaginationToken {
                    path,
                    limit: self.limit,
                    max_depth: self.max_depth,
                    suggested_only: self.suggested_only,
                });
            }
            self.emitted = self.emitted + 1;
            outcome = Arrival::Emit;
            proof {
                self.page@ = self.page@.push(path@);
            }
        }
        if (self.stack.len() as u64) < self.max_depth {
            self.stack.push(Visit { short, pending: reversed(children) });
        }
        outcome
    }
}

/// The servers named in `s`, each once where it first occurs, leaving out
/// `own`.
pub open spec fn distinct_others(s: Seq<Seq<char>>, own: Seq<char>) -> Seq<Seq<char>>
    decreases s.len(),
{
    if s.len() == 0 {
        Seq::empty()
    } else {
        let p = distinct_others(s.drop_last(), own);
        if s.last() == own || p.contains(s.last()) {
            p
        } else {
            p.push(s.last())
        }
    }
}

/// The text of an optional string, as a list of none or one.
pub open spec fn opt_text(s: Option<String>) -> Seq<Seq<char>> {
    match s {
        Some(s) => seq![s@],
        None => Seq::empty(),
    }
}

/// The servers to ask for a room this server does not know: the ones the
/// request names, then the room's own server, each once and none of them
/// this server itself.
pub fn candidates(via: &Vec<String>, room_server: Option<String>, own_server: &str) -> (r: Vec<String>)
    ensures
        texts(r@) == distinct_others(texts(via@) + opt_text(room_server), own_server@),
{
    let mut servers: Vec<String> = Vec::new();
    let mut i: usize = 0;
    while i < via.len()
        invariant
            i <= via.len(),
            texts(servers@) == texts(via@.take(i as int)),
        decreases (via.len() - i),
    {
        let x = via[i].clone();
        servers.push(x);
        proof {
            assert(via@.take(i + 1) == via@.take(i as int).push(via@[i as int]));
            assert(texts(servers@) == texts(via@.take(i as int)).push(x@));
        }
        i += 1;
    }
    proof {
        assert(via@.take(i as int) == via@);
    }
    let ghost listed = texts(via@);
    match room_server {
        Some(s) => {
            let ghost sv = s@;
            servers.push(s);
            proof {
                assert(texts(servers@) == listed.push(sv));
                assert(listed + seq![sv] == listed.push(sv));
            }
        },
        None => {
            proof {
                assert(listed + Seq::<Seq<char>>::empty() == listed);
            }
        },
    }
    let ghost whole = texts(servers@);
    let own = own_server.to_owned();
    let mut r: Vec<String> = Vec::new();
    let mut k: usize = 0;
    while k < servers.len()
        invariant
            k <= servers.len(),
            whole == texts(servers@),
            own@ == own_server@,
            texts(r@) == distinct_others(whole.take(k as int), own_server@),
        decreases servers.len() - k,
    {
        proof {
            assert(whole.take(k + 1).drop_last() == whole.take(k as int));
            assert(whole.take(k + 1).last() == servers@[k as int]@);
        }
        let candidate = &servers[k];
        let is_own = *candidate == own;
        let mut present = false;
        let mut j: usize = 0;
        while j < r.len()
            invariant
                j <= r.len(),
                present <==> exists|m: int| 0 <= m < j && (#[trigger] r@[m])@ == candidate@,
            decreases r.len() - j,
        {
            if r[j] == *candidate {
                present = true;
            }
            proof {
                if present && !(r@[j as int]@ == candidate@) {
                    let m = choose|m: int| 0 <= m < j && (#[trigger] r@[m])@ == candidate@;
                    assert(0 <= m < j + 1);
                }
            }
            j += 1;
        }
        proof {
            if present {
                let m = choose|m: int| 0 <= m < j && (#[trigger] r@[m])@ == candidate@;
                assert(texts(r@)[m] == candidate@);
            } else {
                assert forall|m: int| 0 <= m < texts(r@).len() implies texts(r@)[m] != candidate@ by {
                    assert(texts(r@)[m] == r@[m]@);
                }
            }
        }
        let seen = is_own || present;
        if !seen {
            let ghost before = r@;
            r.push(candidate.clone());
            proof {
                assert(texts(r@) == texts(before).push(candidate@));
            }
        }
        k += 1;
    }
    proof {
        assert(whole.take(k as int) == whole);
    }
    r
}

/// The join rule a room's summary reports, as far as access to the summary
/// goes.
#[derive(Debug, Clone, Copy, PartialEq, Eq, Structural)]
pub enum SummaryJoinRule {
    /// Anyone may join.
    Public,
    /// Anyone may knock.
    Knock,
    /// Members of some other rooms may join.
    Restricted,
    /// Members of some other rooms may join, and anyone may knock.
    KnockRestricted,
    /// Any other rule.
    Closed,
}

/// Whether the asker may see a room's summary: it is in the room, the room
/// is world readable, anyone may join or knock, or the rule is restricted and
/// the asker is in one of the rooms it allows.
pub fn accessible_to(in_room: bool, world_readable: bool, join_rule: SummaryJoinRule, in_allowed_room: bool) -> (r: bool)
    ensures
        r == (in_room || world_readable || match join_rule {
            SummaryJoinRule::Public | SummaryJoinRule::Knock | SummaryJoinRule::KnockRestricted => true,
            SummaryJoinRule::Restricted => in_allowed_room,
            SummaryJoinRule::Closed => false,
        }),
{
    if in_room || world_readable {
        return true;
    }
    match join_rule {
        SummaryJoinRule::Public | SummaryJoinRule::Knock => true,
        SummaryJoinRule::Restricted | SummaryJoinRule::KnockRestricted => {
            if in_allowed_room {
                return true;
            }
            matches!(join_rule, SummaryJoinRule::KnockRestricted)
        },
        SummaryJoinRule::Closed => false,
    }
}

} // verus!
