//! The servers recorded for a room.
//!
//! A room keeps the servers of its joined members, recounted rather than
//! adjusted whenever the membership changes, and the servers an invite was
//! sent through, kept sorted and free of duplicates.

use crate::json_object::TextMap;
use crate::text_order::{insert_sorted, strictly_sorted, texts};
use vstd::prelude::*;

verus! {

/// The texts of a list of strings, as a set.
pub open spec fn text_set(v: Seq<String>) -> Set<Seq<char>> {
    texts(v).to_set()
}

/// Adds every server of `from` to the sorted list `into`, consuming `from`.
fn insert_all(into: &mut Vec<String>, from: Vec<String>)
    requires
        strictly_sorted(texts(old(into)@)),
    ensures
        strictly_sorted(texts(final(into)@)),
        text_set(final(into)@) == text_set(old(into)@) + text_set(from@),
{
    let ghost all = from@;
    let mut rest = from;
    while rest.len() > 0
        invariant
            strictly_sorted(texts(into@)),
            text_set(into@) + text_set(rest@) == text_set(old(into)@) + text_set(all),
        decreases rest.len(),
    {
        let ghost before_rest = rest@;
        let ghost before_into = into@;
        let x = rest.pop().unwrap();
        let ghost xv = x@;
        insert_sorted(into, x);
        proof {
            assert(before_rest == rest@.push(x));
            assert(texts(before_rest) == texts(rest@).push(xv));
            texts(rest@).lemma_push_to_set_commute(xv);
            assert(text_set(into@) + text_set(rest@) =~= text_set(before_into) + text_set(before_rest));
        }
    }
    proof {
        assert(text_set(rest@) =~= Set::empty());
        assert(text_set(into@) + text_set(rest@) =~= text_set(into@));
    }
}

/// The servers an invite went through once `added` are added to those
/// recorded: all of them, sorted and each once.
pub fn add_servers_invite_via(recorded: Vec<String>, added: Vec<String>) -> (r: Vec<String>)
    ensures
        strictly_sorted(texts(r@)),
        text_set(r@) == text_set(recorded@) + text_set(added@),
{
    let mut servers: Vec<String> = Vec::new();
    proof {
        assert(text_set(servers@) =~= Set::empty());
    }
    let ghost a = recorded@;
    let ghost b = added@;
    insert_all(&mut servers, recorded);
    insert_all(&mut servers, added);
    proof {
        assert(Set::<Seq<char>>::empty() + text_set(a) =~= text_set(a));
    }
    servers
}

/// A room's member counts and the change to its server list, from the
/// The invite-via servers recorded are what sorting and deduplicating the
/// servers recorded before together with those added gives: any list of
/// those servers, sorted and free of duplicates, is the list recorded.
pub proof fn lemma_invite_via_is_sorted_dedup(result: Seq<String>, recorded: Seq<String>, added: Seq<String>, sorted: Seq<Seq<char>>)
    requires
        strictly_sorted(texts(result)),
        text_set(result) == text_set(recorded) + text_set(added),
        strictly_sorted(sorted),
        sorted.to_set() == text_set(recorded) + text_set(added),
    ensures
        texts(result) == sorted,
{
    crate::text_order::lemma_sorted_set_unique(texts(result), sorted);
}

/// servers of its joined members and the servers recorded for it.
#[derive(Debug)]
pub struct JoinedServers {
    /// How many members are joined.
    pub joined_count: u64,
    /// The servers of the joined members, sorted and each once.
    pub servers: Vec<String>,
    /// The recorded servers that no joined member is on any more, in the
    /// order they were recorded.
    pub stale: Vec<String>,
}

/// The recorded servers that are not among `servers`, in order.
pub open spec fn stale_servers(recorded: Seq<Seq<char>>, servers: Set<Seq<char>>) -> Seq<Seq<char>> {
    recorded.filter(|s: Seq<char>| !servers.contains(s))
}

/// Recounts a room: the number of joined members (saturating), the set of
/// their servers, and the recorded servers to drop.
pub fn recount_servers(member_servers: &Vec<String>, recorded: &Vec<String>) -> (r: JoinedServers)
    ensures
        r.joined_count == if member_servers.len() <= u64::MAX { member_servers.len() as u64 } else { u64::MAX },
        strictly_sorted(texts(r.servers@)),
        text_set(r.servers@) == text_set(member_servers@),
        texts(r.stale@) == stale_servers(texts(recorded@), text_set(member_servers@)),
{
    let mut count: u64 = 0;
    let mut servers: Vec<String> = Vec::new();
    proof {
        assert(text_set(servers@) =~= text_set(member_servers@.take(0)));
    }
    let mut i: usize = 0;
    while i < member_servers.len()
        invariant
            i <= member_servers.len(),
            count == if i <= u64::MAX { i as u64 } else { u64::MAX },
            strictly_sorted(texts(servers@)),
            text_set(servers@) == text_set(member_servers@.take(i as int)),
        decreases member_servers.len() - i,
    {
        count = count.saturating_add(1);
        let ghost before = servers@;
        let x = member_servers[i].clone();
        insert_sorted(&mut servers, x);
        proof {
            assert(member_servers@.take(i + 1) == member_servers@.take(i as int).push(member_servers@[i as int]));
            assert(texts(member_servers@.take(i + 1)) == texts(member_servers@.take(i as int)).push(member_servers@[i as int]@));
            texts(member_servers@.take(i as int)).lemma_push_to_set_commute(member_servers@[i as int]@);
        }
        i += 1;
    }
    proof {
        assert(member_servers@.take(i as int) == member_servers@);
    }
    let ghost joined = text_set(member_servers@);
    let ghost keep = |s: Seq<char>| !joined.contains(s);
    let mut stale: Vec<String> = Vec::new();
    let mut k: usize = 0;
    while k < recorded.len()
        invariant
            k <= recorded.len(),
            joined == text_set(member_servers@),
            text_set(servers@) == joined,
            keep == (|s: Seq<char>| !joined.contains(s)),
            texts(stale@) == texts(recorded@).take(k as int).filter(keep),
        decreases recorded.len() - k,
    {
        let mut present = false;
        let mut j: usize = 0;
        while j < servers.len()
            invariant
                j <= servers.len(),
                k < recorded.len(),
                present <==> exists|m: int| 0 <= m < j && (#[trigger] servers@[m])@ == recorded@[k as int]@,
            decreases servers.len() - j,
        {
            if servers[j] == recorded[k] {
                present = true;
            }
            proof {
                if present && !(servers@[j as int]@ == recorded@[k as int]@) {
                    let m = choose|m: int| 0 <= m < j && (#[trigger] servers@[m])@ == recorded@[k as int]@;
                    assert(0 <= m < j + 1);
                }
            }
            j += 1;
        }
        proof {
            let r = recorded@[k as int]@;
            if present {
                let m = choose|m: int| 0 <= m < j && (#[trigger] servers@[m])@ == r;
                assert(texts(servers@)[m] == r);
                assert(text_set(servers@).contains(r));
            } else {
                assert(!texts(servers@).contains(r)) by {
                    if texts(servers@).contains(r) {
                        let m = choose|m: int| 0 <= m < texts(servers@).len() && texts(servers@)[m] == r;
                        assert(servers@[m]@ == r);
                    }
                }
            }
            assert(texts(recorded@).take(k + 1) == texts(recorded@).take(k as int).push(r));
            assert(texts(recorded@).take(k + 1).drop_last() == texts(recorded@).take(k as int));
            reveal(Seq::filter);
        }
        if !present {
            let ghost before = stale@;
            stale.push(recorded[k].clone());
            proof {
                assert(texts(stale@) == texts(before).push(recorded@[k as int]@));
            }
        }
        k += 1;
    }
    proof {
        assert(texts(recorded@).take(k as int) == texts(recorded@));
    }
    JoinedServers { joined_count: count, servers, stale }
}


/// How many times `x` occurs in `s`.
pub open spec fn occurrences(s: Seq<Seq<char>>, x: Seq<char>) -> nat
    decreases s.len(),
{
    if s.len() == 0 {
        0
    } else {
        occurrences(s.drop_last(), x) + if s.last() == x { 1nat } else { 0nat }
    }
}

/// A server that occurs in a list occurs at least once.
proof fn lemma_occurs(s: Seq<Seq<char>>, x: Seq<char>)
    ensures
        s.contains(x) <==> occurrences(s, x) > 0,
    decreases s.len(),
{
    if s.len() > 0 {
        lemma_occurs(s.drop_last(), x);
        if s.contains(x) && s.last() != x {
            let i = choose|i: int| 0 <= i < s.len() && s[i] == x;
            assert(s.drop_last()[i] == x);
        }
        if s.drop_last().contains(x) {
            let i = choose|i: int| 0 <= i < s.drop_last().len() && s.drop_last()[i] == x;
            assert(s[i] == x);
        }
    }
}

/// How many members each server has, from the servers of a room's members.
fn member_counts(member_servers: &Vec<String>) -> (r: TextMap<usize>)
    ensures
        forall|k: Seq<char>| #[trigger] r@.dom().contains(k) <==> texts(member_servers@).contains(k),
        forall|k: Seq<char>| #[trigger] r@.dom().contains(k) ==> r@[k] == occurrences(texts(member_servers@), k),
{
    let ghost m = texts(member_servers@);
    let mut counts: TextMap<usize> = TextMap::new();
    let mut i: usize = 0;
    while i < member_servers.len()
        invariant
            i <= member_servers.len(),
            m == texts(member_servers@),
            forall|k: Seq<char>| #[trigger] counts@.dom().contains(k) <==> m.take(i as int).contains(k),
            forall|k: Seq<char>| #[trigger] counts@.dom().contains(k) ==> counts@[k] == occurrences(m.take(i as int), k) && counts@[k] <= i,
        decreases member_servers.len() - i,
    {
        let server = &member_servers[i];
        let n: usize = match counts.get(server.as_str()) {
            Some(c) => *c,
            None => 0,
        };
        let ghost before = counts@;
        counts.insert(server.clone(), n + 1);
        proof {
            let t = m.take(i + 1);
            assert(t.drop_last() == m.take(i as int));
            assert(t.last() == server@);
            assert forall|k: Seq<char>| #[trigger] counts@.dom().contains(k) <==> t.contains(k) by {
                if t.contains(k) && k != server@ {
                    let j = choose|j: int| 0 <= j < t.len() && t[j] == k;
                    assert(m.take(i as int)[j] == k);
                }
                if m.take(i as int).contains(k) {
                    let j = choose|j: int| 0 <= j < i && m.take(i as int)[j] == k;
                    assert(t[j] == k);
                }
                assert(t[i as int] == server@);
            }
            assert forall|k: Seq<char>| #[trigger] counts@.dom().contains(k) implies counts@[k] == occurrences(t, k) && counts@[k] <= i + 1 by {
                if k != server@ {
                    assert(before.dom().contains(k));
                } else if !before.dom().contains(k) {
                    lemma_occurs(m.take(i as int), k);
                }
            }
        }
        i += 1;
    }
    proof {
        assert(m.take(i as int) == m);
    }
    counts
}


/// Whether `r` lists up to `n` distinct servers of the members `m` with the
/// most members, most first: a server left out has no more members than the
/// last one listed, and one is left out only when `n` are listed. Servers
/// with as many members may come in any order.
pub open spec fn top_by_members(r: Seq<Seq<char>>, m: Seq<Seq<char>>, n: nat) -> bool {
    &&& r.len() <= n
    &&& r.no_duplicates()
    &&& forall|i: int| 0 <= i < r.len() ==> m.contains(#[trigger] r[i])
    &&& forall|i: int, j: int| 0 <= i < j < r.len() ==> occurrences(m, #[trigger] r[i]) >= occurrences(m, #[trigger] r[j])
    &&& forall|k: Seq<char>| m.contains(k) && !r.contains(k) ==> r.len() == n && (n > 0 ==> occurrences(m, k) <= occurrences(m, r.last()))
}

/// The five servers with the most members in a room, most first.
pub fn servers_by_members(member_servers: &Vec<String>) -> (r: Vec<String>)
    ensures
        top_by_members(texts(r@), texts(member_servers@), 5),
{
    let ghost m = texts(member_servers@);
    let counts = member_counts(member_servers);
    let ghost cm = counts@;
    let mut rest = counts.into_entries();
    let mut chosen: Vec<String> = Vec::new();
    while chosen.len() < 5 && rest.len() > 0
        invariant
            chosen.len() <= 5,
            forall|k: Seq<char>| #[trigger] cm.dom().contains(k) <==> m.contains(k),
            forall|k: Seq<char>| #[trigger] cm.dom().contains(k) ==> cm[k] == occurrences(m, k),
            forall|a: int, b: int| 0 <= a < b < rest.len() ==> (#[trigger] rest@[a]).0@ != (#[trigger] rest@[b]).0@,
            forall|a: int| 0 <= a < rest.len() ==> cm.dom().contains((#[trigger] rest@[a]).0@) && cm[rest@[a].0@] == rest@[a].1,
            forall|k: Seq<char>| #[trigger] cm.dom().contains(k) ==> texts(chosen@).contains(k) || exists|a: int| 0 <= a < rest.len() && (#[trigger] rest@[a]).0@ == k,
            forall|a: int, c: int| 0 <= a < rest.len() && 0 <= c < chosen.len() ==> (#[trigger] rest@[a]).0@ != (#[trigger] chosen@[c])@,
            texts(chosen@).no_duplicates(),
            forall|c: int| 0 <= c < chosen.len() ==> cm.dom().contains((#[trigger] chosen@[c])@),
            forall|a: int, b: int| 0 <= a < b < chosen.len() ==> cm[(#[trigger] chosen@[a])@] >= cm[(#[trigger] chosen@[b])@],
            chosen.len() > 0 ==> forall|a: int| 0 <= a < rest.len() ==> (#[trigger] rest@[a]).1 <= cm[chosen@[chosen.len() - 1]@],
        decreases rest.len(),
    {
        let mut best: usize = 0;
        let mut j: usize = 1;
        while j < rest.len()
            invariant
                best < j <= rest.len(),
                forall|t: int| 0 <= t < j ==> (#[trigger] rest@[t]).1 <= rest@[best as int].1,
            decreases rest.len() - j,
        {
            if rest[j].1 > rest[best].1 {
                best = j;
            }
            j += 1;
        }
        let ghost before = rest@;
        let ghost before_chosen = chosen@;
        let (key, _) = rest.remove(best);
        chosen.push(key);
        proof {
            let picked = before[best as int];
            assert(chosen@ == before_chosen.push(chosen@[chosen.len() - 1]));
            assert(chosen@[chosen.len() - 1]@ == picked.0@);
            assert(texts(chosen@) == texts(before_chosen).push(picked.0@));
            assert forall|a: int| 0 <= a < rest.len() implies #[trigger] rest@[a] == before[if a < best { a } else { a + 1 }] by {}
            assert(texts(chosen@).no_duplicates()) by {
                assert forall|x: int, y: int| 0 <= x < y < texts(chosen@).len() implies texts(chosen@)[x] != texts(chosen@)[y] by {
                    if y == chosen.len() - 1 {
                        assert(before[best as int].0@ != before_chosen[x]@);
                    } else {
                        assert(texts(before_chosen)[x] != texts(before_chosen)[y]);
                    }
                }
            }
            assert forall|k: Seq<char>| #[trigger] cm.dom().contains(k) implies texts(chosen@).contains(k) || exists|a: int| 0 <= a < rest.len() && (#[trigger] rest@[a]).0@ == k by {
                if texts(before_chosen).contains(k) {
                    let c = choose|c: int| 0 <= c < texts(before_chosen).len() && texts(before_chosen)[c] == k;
                    assert(texts(chosen@)[c] == k);
                } else {
                    let a = choose|a: int| 0 <= a < before.len() && (#[trigger] before[a]).0@ == k;
                    if a == best {
                        assert(texts(chosen@)[chosen.len() - 1] == k);
                    } else if a < best {
                        assert(rest@[a].0@ == k);
                    } else {
                        assert(rest@[a - 1].0@ == k);
                    }
                }
            }
            assert forall|a: int, b: int| 0 <= a < b < chosen.len() implies cm[(#[trigger] chosen@[a])@] >= cm[(#[trigger] chosen@[b])@] by {
                if b == chosen.len() - 1 && a < b {
                    if before_chosen.len() > 0 {
                        assert(before[best as int].1 <= cm[before_chosen[before_chosen.len() - 1]@]);
                        assert(cm[before_chosen[a]@] >= cm[before_chosen[before_chosen.len() - 1]@] || a == before_chosen.len() - 1);
                    }
                } else {
                    assert(chosen@[a] == before_chosen[a] && chosen@[b] == before_chosen[b]);
                }
            }
            assert forall|a: int| 0 <= a < rest.len() implies (#[trigger] rest@[a]).1 <= cm[chosen@[chosen.len() - 1]@] by {
                let a0 = if a < best { a } else { a + 1 };
                assert(before[a0].1 <= before[best as int].1);
            }
        }
    }
    proof {
        let r = texts(chosen@);
        assert forall|i: int| 0 <= i < r.len() implies m.contains(#[trigger] r[i]) by {
            assert(cm.dom().contains(chosen@[i]@));
        }
        assert forall|i: int, j: int| 0 <= i < j < r.len() implies occurrences(m, #[trigger] r[i]) >= occurrences(m, #[trigger] r[j]) by {
            assert(cm[chosen@[i]@] >= cm[chosen@[j]@]);
        }
        assert forall|k: Seq<char>| m.contains(k) && !r.contains(k) implies r.len() == 5 && occurrences(m, k) <= occurrences(m, r.last()) by {
            assert(cm.dom().contains(k));
            let a = choose|a: int| 0 <= a < rest.len() && (#[trigger] rest@[a]).0@ == k;
            assert(rest@[a].1 <= cm[chosen@[chosen.len() - 1]@]);
        }
    }
    chosen
}


/// Where the last of the greatest powers stands in a nonempty list.
pub open spec fn last_max_index(powers: Seq<i64>) -> int
    decreases powers.len(),
{
    if powers.len() <= 1 {
        0
    } else {
        let j = last_max_index(powers.drop_last());
        if powers.last() >= powers[j] {
            powers.len() - 1
        } else {
            j
        }
    }
}

/// The last of the greatest powers is one of them, no power exceeds it, and
/// every power after it is smaller.
pub proof fn lemma_last_max_index(powers: Seq<i64>)
    requires
        powers.len() > 0,
    ensures
        0 <= last_max_index(powers) < powers.len(),
        forall|i: int| 0 <= i < powers.len() ==> #[trigger] powers[i] <= powers[last_max_index(powers)],
        forall|i: int| last_max_index(powers) < i < powers.len() ==> #[trigger] powers[i] < powers[last_max_index(powers)],
    decreases powers.len(),
{
    if powers.len() > 1 {
        let d = powers.drop_last();
        lemma_last_max_index(d);
        let j = last_max_index(d);
        assert(d[j] == powers[j]);
        assert forall|i: int| 0 <= i < powers.len() implies #[trigger] powers[i] <= powers[last_max_index(powers)] by {
            if i < powers.len() - 1 {
                assert(d[i] == powers[i]);
            }
        }
        assert forall|i: int| last_max_index(powers) < i < powers.len() implies #[trigger] powers[i] < powers[last_max_index(powers)] by {
            if i < powers.len() - 1 {
                assert(d[i] == powers[i]);
            }
        }
    }
}

/// The power level a user needs for their server to lead a room's routing
/// servers.
pub const ROUTING_POWER: i64 = 50;

/// The powers of a list of users, given as their servers with their powers.
pub open spec fn powers_of(users: Seq<(String, i64)>) -> Seq<i64> {
    users.map_values(|u: (String, i64)| u.1)
}

/// The server of the user with the greatest power in a room, the last of them
/// in the order given where several have it, if that power is at least
/// `ROUTING_POWER`. Each user is given as their server and their power.
pub fn most_powerful_server(users: &Vec<(String, i64)>) -> (r: Option<String>)
    ensures
        r.deep_view() == if users.len() > 0 && users@[last_max_index(powers_of(users@))].1 >= ROUTING_POWER {
            Some(users@[last_max_index(powers_of(users@))].0@)
        } else {
            None
        },
{
    if users.len() == 0 {
        return None;
    }
    let ghost p = powers_of(users@);
    let mut best: usize = 0;
    let mut i: usize = 1;
    proof {
        assert(p.take(1).len() == 1);
        assert(last_max_index(p.take(1)) == 0);
    }
    while i < users.len()
        invariant
            1 <= i <= users.len(),
            p == powers_of(users@),
            best as int == last_max_index(p.take(i as int)),
            best < i,
        decreases users.len() - i,
    {
        proof {
            assert(p.take(i + 1).drop_last() == p.take(i as int));
            assert(p.take(i + 1).last() == users@[i as int].1);
            assert(p.take(i as int)[best as int] == users@[best as int].1);
        }
        if users[i].1 >= users[best].1 {
            best = i;
        }
        i += 1;
    }
    proof {
        assert(p.take(i as int) == p);
    }
    if users[best].1 >= ROUTING_POWER {
        Some(users[best].0.clone())
    } else {
        None
    }
}

/// The first `n` of a list of the servers with the most members are the `n`
/// servers with the most members.
pub proof fn lemma_top_prefix(r: Seq<Seq<char>>, m: Seq<Seq<char>>, n: nat, k: nat)
    requires
        top_by_members(r, m, n),
        0 < k <= n,
    ensures
        top_by_members(if r.len() > k { r.take(k as int) } else { r }, m, k),
{
    if r.len() > k {
        let t = r.take(k as int);
        assert forall|x: int, y: int| 0 <= x < y < t.len() implies t[x] != t[y] by {
            assert(r[x] != r[y]);
        }
        assert forall|x: Seq<char>| m.contains(x) && !t.contains(x) implies t.len() == k && occurrences(m, x) <= occurrences(m, t.last()) by {
            if r.contains(x) {
                let i = choose|i: int| 0 <= i < r.len() && r[i] == x;
                if i < k {
                    assert(t[i] == x);
                }
                assert(occurrences(m, r[k - 1]) >= occurrences(m, r[i]));
            } else {
                assert(occurrences(m, r[k - 1]) >= occurrences(m, r.last()) || k - 1 == r.len() - 1);
            }
        }
    }
}

/// The servers to route a room through: those of the five largest member
/// groups, most members first, led by the server of the room's most powerful
/// user where there is one, which keeps the list at five by dropping the
/// last. The leading server may be listed twice.
pub fn servers_route_via(most_powerful: Option<String>, member_servers: &Vec<String>) -> (r: Vec<String>)
    ensures
        match most_powerful {
            Some(p) => r.len() > 0 && r@[0]@ == p@ && top_by_members(texts(r@).drop_first(), texts(member_servers@), 4),
            None => top_by_members(texts(r@), texts(member_servers@), 5),
        },
{
    let mut servers = servers_by_members(member_servers);
    match most_powerful {
        Some(p) => {
            let ghost ranked = texts(servers@);
            servers.insert(0, p);
            servers.truncate(5);
            proof {
                lemma_top_prefix(ranked, texts(member_servers@), 5, 4);
                if ranked.len() > 4 {
                    assert(texts(servers@).drop_first() == ranked.take(4));
                } else {
                    assert(texts(servers@).drop_first() == ranked);
                }
            }
            servers
        },
        None => servers,
    }
}

} // verus!
