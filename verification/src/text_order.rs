//! The order of identifiers as text.
//!
//! User ids, server names and room ids are ordered as strings are:
//! lexicographically by their UTF-8 bytes, which is the same as
//! lexicographically by their characters' code points, since UTF-8 keeps the
//! order of code points. Sorted lists of them are kept in that order.

use vstd::prelude::*;
use vstd::std_specs::iter::IteratorSpec;

verus! {

broadcast use {vstd::string::axiom_spec_iter, vstd::string::next_postcondition};

/// Whether text `a` comes strictly before text `b`.
pub open spec fn text_lt(a: Seq<char>, b: Seq<char>) -> bool
    decreases a.len(),
{
    if b.len() == 0 {
        false
    } else if a.len() == 0 {
        true
    } else if a[0] != b[0] {
        (a[0] as int) < (b[0] as int)
    } else {
        text_lt(a.drop_first(), b.drop_first())
    }
}

/// No text comes before itself, and of two different texts one comes first.
pub proof fn lemma_text_lt_total(a: Seq<char>, b: Seq<char>)
    ensures
        !text_lt(a, a),
        a != b ==> (text_lt(a, b) || text_lt(b, a)),
        !(text_lt(a, b) && text_lt(b, a)),
    decreases a.len(),
{
    if a.len() > 0 {
        lemma_text_lt_total(a.drop_first(), a.drop_first());
    }
    if a.len() == 0 && b.len() == 0 {
        assert(a =~= b);
    } else if a.len() > 0 && b.len() > 0 {
        lemma_text_lt_total(a.drop_first(), b.drop_first());
        if a[0] == b[0] {
            if a != b {
                assert(a.drop_first() != b.drop_first()) by {
                    if a.drop_first() == b.drop_first() {
                        assert(a =~= seq![a[0]] + a.drop_first());
                        assert(b =~= seq![b[0]] + b.drop_first());
                    }
                }
            }
        } else {
            assert((a[0] as int) != (b[0] as int));
            assert(text_lt(a, b) == ((a[0] as int) < (b[0] as int)));
            assert(text_lt(b, a) == ((b[0] as int) < (a[0] as int)));
        }
    }
}

/// The order is transitive.
pub proof fn lemma_text_lt_transitive(a: Seq<char>, b: Seq<char>, c: Seq<char>)
    requires
        text_lt(a, b),
        text_lt(b, c),
    ensures
        text_lt(a, c),
    decreases a.len(),
{
    if a.len() > 0 && b.len() > 0 && c.len() > 0 && a[0] == b[0] && b[0] == c[0] {
        lemma_text_lt_transitive(a.drop_first(), b.drop_first(), c.drop_first());
    }
}

/// How two texts compare.
#[derive(Debug, Clone, Copy, PartialEq, Eq, Structural)]
pub enum TextOrder {
    /// The first comes before the second.
    Before,
    /// They are the same text.
    Same,
    /// The first comes after the second.
    After,
}

/// The characters of a string.
pub fn chars_of(s: &str) -> (r: Vec<char>)
    ensures
        r@ == s@,
{
    let mut r: Vec<char> = Vec::new();
    let mut it = s.chars();
    let ghost mut n: int = 0;
    loop
        invariant
            0 <= n <= s@.len(),
            it.obeys_prophetic_iter_laws(),
            it.remaining() == s@.skip(n),
            r@ == s@.take(n),
        ensures
            r@ == s@,
        decreases s@.len() - n,
    {
        let ghost before = it.remaining();
        match it.next() {
            Some(c) => {
                proof {
                    assert(c == s@[n]);
                    assert(s@.take(n + 1) == s@.take(n).push(c));
                    assert(it.remaining() == s@.skip(n + 1));
                }
                r.push(c);
                proof {
                    n = n + 1;
                }
            },
            None => {
                proof {
                    assert(before.len() == 0);
                    assert(s@.take(n) == s@);
                }
                break;
            },
        }
    }
    r
}

/// How two texts compare.
pub fn compare_texts(a: &str, b: &str) -> (r: TextOrder)
    ensures
        r == if text_lt(a@, b@) {
            TextOrder::Before
        } else if a@ == b@ {
            TextOrder::Same
        } else {
            TextOrder::After
        },
        r is After ==> text_lt(b@, a@),
{
    let ca = chars_of(a);
    let cb = chars_of(b);
    proof {
        lemma_text_lt_total(a@, b@);
        assert(a@.skip(0) == a@);
        assert(b@.skip(0) == b@);
    }
    let mut k: usize = 0;
    while k < ca.len() && k < cb.len()
        invariant
            k <= ca.len(),
            k <= cb.len(),
            ca@ == a@,
            cb@ == b@,
            ca@.take(k as int) == cb@.take(k as int),
            text_lt(a@, b@) == text_lt(a@.skip(k as int), b@.skip(k as int)),
            text_lt(b@, a@) == text_lt(b@.skip(k as int), a@.skip(k as int)),
        decreases ca.len() - k,
    {
        let x = ca[k];
        let y = cb[k];
        proof {
            assert(a@.skip(k as int)[0] == x);
            assert(b@.skip(k as int)[0] == y);
        }
        if x != y {
            proof {
                assert(a@ != b@) by {
                    if a@ == b@ {
                        assert(a@[k as int] == b@[k as int]);
                    }
                }
                assert((x as int) != (y as int));
            }
            if x < y {
                return TextOrder::Before;
            } else {
                return TextOrder::After;
            }
        }
        proof {
            assert(a@.skip(k as int).drop_first() == a@.skip(k + 1));
            assert(b@.skip(k as int).drop_first() == b@.skip(k + 1));
            assert(ca@.take(k + 1) == ca@.take(k as int).push(x));
            assert(cb@.take(k + 1) == cb@.take(k as int).push(y));
        }
        k += 1;
    }
    if ca.len() == cb.len() {
        proof {
            assert(a@ == ca@.take(k as int));
            assert(b@ == cb@.take(k as int));
        }
        TextOrder::Same
    } else if k == ca.len() {
        proof {
            assert(a@.skip(k as int).len() == 0);
            assert(b@.skip(k as int).len() > 0);
        }
        TextOrder::Before
    } else {
        proof {
            assert(b@.skip(k as int).len() == 0);
            assert(a@.skip(k as int).len() > 0);
        }
        TextOrder::After
    }
}

/// Whether a list of texts is in strictly increasing order, which also makes
/// it free of duplicates.
pub open spec fn strictly_sorted(s: Seq<Seq<char>>) -> bool {
    forall|i: int, j: int| 0 <= i < j < s.len() ==> text_lt(#[trigger] s[i], #[trigger] s[j])
}

/// A list in strictly increasing order is fixed by the set of its texts:
/// two such lists of the same texts are the same list. So any list built
/// sorted and free of duplicates is what sorting and deduplicating its texts
/// gives.
pub proof fn lemma_sorted_set_unique(a: Seq<Seq<char>>, b: Seq<Seq<char>>)
    requires
        strictly_sorted(a),
        strictly_sorted(b),
        a.to_set() == b.to_set(),
    ensures
        a == b,
    decreases a.len(),
{
    if a.len() == 0 {
        if b.len() > 0 {
            assert(b.to_set().contains(b[0]));
        }
        assert(a =~= b);
    } else {
        assert(a.to_set().contains(a[0]));
        assert(b.len() > 0);
        assert(b.to_set().contains(b[0]));
        let j = choose|j: int| 0 <= j < b.len() && b[j] == a[0];
        let i = choose|i: int| 0 <= i < a.len() && a[i] == b[0];
        if j > 0 {
            assert(text_lt(b[0], b[j]));
            lemma_text_lt_total(a[0], a[i]);
            if i > 0 {
                assert(text_lt(a[0], a[i]));
            }
        }
        assert(a[0] == b[0]);
        let a1 = a.drop_first();
        let b1 = b.drop_first();
        assert forall|x: Seq<char>| a1.to_set().contains(x) <==> b1.to_set().contains(x) by {
            if a1.contains(x) {
                let k = choose|k: int| 0 <= k < a1.len() && a1[k] == x;
                assert(a[k + 1] == x);
                assert(text_lt(a[0], a[k + 1]));
                lemma_text_lt_total(a[0], x);
                assert(a.contains(x));
                assert(a.to_set().contains(x));
                assert(b.to_set().contains(x));
                assert(b.contains(x));
                let m = choose|m: int| 0 <= m < b.len() && b[m] == x;
                assert(m != 0);
                assert(b1[m - 1] == x);
            }
            if b1.contains(x) {
                let k = choose|k: int| 0 <= k < b1.len() && b1[k] == x;
                assert(b[k + 1] == x);
                assert(text_lt(b[0], b[k + 1]));
                lemma_text_lt_total(b[0], x);
                assert(b.contains(x));
                assert(b.to_set().contains(x));
                assert(a.to_set().contains(x));
                assert(a.contains(x));
                let m = choose|m: int| 0 <= m < a.len() && a[m] == x;
                assert(m != 0);
                assert(a1[m - 1] == x);
            }
        }
        assert(a1.to_set() =~= b1.to_set());
        assert forall|x: int, y: int| 0 <= x < y < a1.len() implies text_lt(#[trigger] a1[x], #[trigger] a1[y]) by {
            assert(a1[x] == a[x + 1] && a1[y] == a[y + 1]);
        }
        assert forall|x: int, y: int| 0 <= x < y < b1.len() implies text_lt(#[trigger] b1[x], #[trigger] b1[y]) by {
            assert(b1[x] == b[x + 1] && b1[y] == b[y + 1]);
        }
        lemma_sorted_set_unique(a1, b1);
        assert(a =~= seq![a[0]] + a1);
        assert(b =~= seq![b[0]] + b1);
    }
}

/// The texts of a list of strings.
pub open spec fn texts(v: Seq<String>) -> Seq<Seq<char>> {
    v.map_values(|x: String| x@)
}

/// Puts `x` into the sorted list `v` where it belongs, unless it is there.
pub fn insert_sorted(v: &mut Vec<String>, x: String)
    requires
        strictly_sorted(texts(old(v)@)),
    ensures
        strictly_sorted(texts(final(v)@)),
        texts(final(v)@).to_set() == texts(old(v)@).to_set().insert(x@),
{
    let ghost before = texts(v@);
    let mut i: usize = 0;
    while i < v.len()
        invariant
            i <= v.len(),
            texts(v@) == before,
            strictly_sorted(before),
            forall|j: int| 0 <= j < i ==> text_lt(#[trigger] before[j], x@),
        ensures
            i <= v.len(),
            texts(v@) == before,
            forall|j: int| 0 <= j < i ==> text_lt(#[trigger] before[j], x@),
            i < v.len() ==> text_lt(x@, before[i as int]),
        decreases v.len() - i,
    {
        match compare_texts(v[i].as_str(), x.as_str()) {
            TextOrder::Before => {
                proof {
                    assert(before[i as int] == v@[i as int]@);
                }
                i += 1;
            },
            TextOrder::Same => {
                proof {
                    assert(before[i as int] == x@);
                    assert(before.to_set().insert(x@) =~= before.to_set());
                }
                return;
            },
            TextOrder::After => {
                proof {
                    assert(before[i as int] == v@[i as int]@);
                }
                break;
            },
        }
    }
    let ghost xv = x@;
    v.insert(i, x);
    proof {
        let after = texts(v@);
        assert(after == before.insert(i as int, xv));
        assert forall|a: int, b: int| 0 <= a < b < after.len() implies text_lt(#[trigger] after[a], #[trigger] after[b]) by {
            if b < i {
                assert(after[a] == before[a] && after[b] == before[b]);
            } else if b == i {
                assert(after[a] == before[a]);
            } else if a == i {
                assert(after[b] == before[b - 1]);
                if b - 1 > i {
                    lemma_text_lt_transitive(xv, before[i as int], before[b - 1]);
                }
            } else if a < i {
                assert(after[a] == before[a] && after[b] == before[b - 1]);
            } else {
                assert(after[a] == before[a - 1] && after[b] == before[b - 1]);
            }
        }
        assert forall|y: Seq<char>| after.to_set().contains(y) <==> before.to_set().insert(xv).contains(y) by {
            if after.contains(y) {
                let k = choose|k: int| 0 <= k < after.len() && after[k] == y;
                if k < i {
                    assert(before[k] == y);
                } else if k > i {
                    assert(before[k - 1] == y);
                }
            }
            if before.contains(y) {
                let k = choose|k: int| 0 <= k < before.len() && before[k] == y;
                if k < i {
                    assert(after[k] == y);
                } else {
                    assert(after[k + 1] == y);
                }
            }
            if y == xv {
                assert(after[i as int] == y);
            }
        }
        assert(after.to_set() =~= before.to_set().insert(xv));
    }
}

} // verus!
