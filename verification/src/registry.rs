//! The registry services are found in, and how they are named there.
//!
//! A service registers under its module path with the crate name dropped, so
//! `phantom_service::rooms::alias` is found as `rooms::alias`. The registry
//! maps each name to what was registered under it, in name order; a service
//! registered again under a name replaces the one before.

use crate::text_order::{compare_texts, lemma_text_lt_total, lemma_text_lt_transitive, strictly_sorted, text_lt, texts, TextOrder};
use vstd::prelude::*;

verus! {

/// Whether `j` is where the first `::` of `s` begins.
pub open spec fn is_first_separator(s: Seq<char>, j: int) -> bool {
    &&& 0 <= j
    &&& j + 1 < s.len()
    &&& s[j] == ':'
    &&& s[j + 1] == ':'
    &&& forall|k: int| 0 <= k < j ==> !(#[trigger] s[k] == ':' && s[k + 1] == ':')
}

/// Whether `s` holds a `::` at all.
pub open spec fn has_separator(s: Seq<char>) -> bool {
    exists|j: int| 0 <= j && j + 1 < s.len() && #[trigger] s[j] == ':' && s[j + 1] == ':'
}

/// What a module path registers as: everything after its first `::`, or
/// nothing when it has none.
pub open spec fn registered_name(s: Seq<char>) -> Seq<char> {
    if has_separator(s) {
        s.skip((choose|j: int| is_first_separator(s, j)) + 2)
    } else {
        Seq::empty()
    }
}

/// A path with a `::` has exactly one first one.
pub proof fn lemma_first_separator(s: Seq<char>)
    requires
        has_separator(s),
    ensures
        exists|j: int| is_first_separator(s, j),
        forall|a: int, b: int| is_first_separator(s, a) && is_first_separator(s, b) ==> a == b,
    decreases s.len(),
{
    let w = choose|j: int| 0 <= j && j + 1 < s.len() && #[trigger] s[j] == ':' && s[j + 1] == ':';
    if forall|k: int| 0 <= k < w ==> !(#[trigger] s[k] == ':' && s[k + 1] == ':') {
        assert(is_first_separator(s, w));
    } else {
        let k = choose|k: int| 0 <= k < w && #[trigger] s[k] == ':' && s[k + 1] == ':';
        let t = s.take(w + 1);
        assert(t[k] == ':' && t[k + 1] == ':');
        assert(has_separator(t));
        lemma_first_separator(t);
        let f = choose|j: int| is_first_separator(t, j);
        assert forall|m: int| 0 <= m < f implies !(#[trigger] s[m] == ':' && s[m + 1] == ':') by {
            assert(t[m] == s[m] && t[m + 1] == s[m + 1]);
        }
        assert(t[f] == s[f] && t[f + 1] == s[f + 1]);
        assert(is_first_separator(s, f));
    }
}

/// `str::split_once` with `"::"` as the delimiter.
///
/// As std documents it: `None` when the string holds no `::`, and otherwise
/// the parts before and after its first occurrence.
#[verifier::external_body]
fn split_once_separator(s: &str) -> (r: Option<(&str, &str)>)
    ensures
        r is None <==> !has_separator(s@),
        r matches Some((a, b)) ==> {
            &&& is_first_separator(s@, a@.len() as int)
            &&& a@ == s@.take(a@.len() as int)
            &&& b@ == s@.skip(a@.len() as int + 2)
        },
{
    s.split_once("::")
}

/// The name a service registers under, given the path of the module it is defined in.
pub fn make_name(path: &str) -> (name: &str)
    ensures
        name@ == registered_name(path@),
{
    match split_once_separator(path) {
        Some((_, rest)) => {
            proof {
                lemma_first_separator(path@);
            }
            rest
        },
        None => {
            proof {
                reveal_strlit("");
            }
            ""
        },
    }
}

/// Where a name is, or would go, in the registry.
enum Slot {
    /// At this index.
    At(usize),
    /// Not there; it would go at this index.
    Before(usize),
}

/// What services are registered under, in name order.
#[derive(Debug)]
pub struct ServiceMap<V> {
    names: Vec<String>,
    values: Vec<V>,
}

/// Why looking a service up fails.
#[derive(Debug, Clone, Copy, PartialEq, Eq, Structural)]
pub enum LookupError {
    /// Nothing is registered under the name, or not yet.
    Missing,
    /// What was registered has been dropped since.
    Dropped,
    /// What was registered is not of the type asked for.
    WrongType,
}

/// The answer to a lookup, from whether the name is registered, whether what
/// it holds is still alive, and whether it is of the type asked for.
pub fn lookup_outcome(registered: bool, alive: bool, right_type: bool) -> (r: Result<(), LookupError>)
    ensures
        r == if !registered {
            Err(LookupError::Missing)
        } else if !alive {
            Err(LookupError::Dropped)
        } else if !right_type {
            Err(LookupError::WrongType)
        } else {
            Ok(())
        },
{
    if !registered {
        Err(LookupError::Missing)
    } else if !alive {
        Err(LookupError::Dropped)
    } else if !right_type {
        Err(LookupError::WrongType)
    } else {
        Ok(())
    }
}

impl<V> ServiceMap<V> {
    /// The registered names, in order.
    pub closed spec fn names(&self) -> Seq<Seq<char>> {
        texts(self.names@)
    }

    /// What each name holds.
    pub closed spec fn entries(&self) -> Map<Seq<char>, V> {
        Map::new(
            |k: Seq<char>| texts(self.names@).contains(k),
            |k: Seq<char>| self.values@[texts(self.names@).index_of(k)],
        )
    }

    /// The lists agree, and the names are in order, each once.
    pub closed spec fn wf(&self) -> bool {
        &&& self.names.len() == self.values.len()
        &&& strictly_sorted(texts(self.names@))
    }

    /// An empty registry.
    pub fn new() -> (r: Self)
        ensures
            r.wf(),
            r.entries() == Map::<Seq<char>, V>::empty(),
    {
        let r = ServiceMap { names: Vec::new(), values: Vec::new() };
        assert(r.entries() =~= Map::<Seq<char>, V>::empty());
        r
    }

    /// How many names are registered.
    pub fn len(&self) -> (r: usize)
        requires
            self.wf(),
        ensures
            r == self.entries().dom().len(),
    {
        proof {
            let names = texts(self.names@);
            assert(names.no_duplicates()) by {
                assert forall|i: int, j: int| 0 <= i < names.len() && 0 <= j < names.len() && i != j implies names[i] != names[j] by {
                    if i < j {
                        assert(text_lt(names[i], names[j]));
                    } else {
                        assert(text_lt(names[j], names[i]));
                    }
                    lemma_text_lt_total(names[i], names[i]);
                }
            }
            names.unique_seq_to_set();
            assert(self.entries().dom() =~= names.to_set());
        }
        self.names.len()
    }

    proof fn lemma_at(&self, i: int)
        requires
            self.wf(),
            0 <= i < self.names.len(),
        ensures
            self.entries().dom().contains(self.names@[i]@),
            self.entries()[self.names@[i]@] == self.values@[i],
    {
        let names = texts(self.names@);
        let k = self.names@[i]@;
        assert(names[i] == k);
        let j = names.index_of(k);
        assert(0 <= j < names.len() && names[j] == k);
        if j != i {
            if i < j {
                assert(text_lt(names[i], names[j]));
            } else {
                assert(text_lt(names[j], names[i]));
            }
            lemma_text_lt_total(k, k);
        }
    }

    /// Where `name` is, or would go.
    fn slot(&self, name: &str) -> (r: Slot)
        requires
            self.wf(),
        ensures
            match r {
                Slot::At(i) => i < self.names.len() && self.names@[i as int]@ == name@,
                Slot::Before(i) => {
                    &&& i <= self.names.len()
                    &&& forall|j: int| 0 <= j < i ==> text_lt(#[trigger] texts(self.names@)[j], name@)
                    &&& i < self.names.len() ==> text_lt(name@, texts(self.names@)[i as int])
                    &&& !texts(self.names@).contains(name@)
                },
            },
    {
        let ghost names = texts(self.names@);
        let mut i: usize = 0;
        while i < self.names.len()
            invariant
                i <= self.names.len(),
                names == texts(self.names@),
                strictly_sorted(names),
                forall|j: int| 0 <= j < i ==> text_lt(#[trigger] names[j], name@),
            decreases self.names.len() - i,
        {
            match compare_texts(self.names[i].as_str(), name) {
                TextOrder::Before => {
                    proof {
                        assert(names[i as int] == self.names@[i as int]@);
                    }
                    i += 1;
                },
                TextOrder::Same => {
                    return Slot::At(i);
                },
                TextOrder::After => {
                    proof {
                        assert(names[i as int] == self.names@[i as int]@);
                        assert forall|j: int| 0 <= j < names.len() implies names[j] != name@ by {
                            if j < i {
                                lemma_text_lt_total(names[j], name@);
                            } else if j > i {
                                lemma_text_lt_transitive(name@, names[i as int], names[j]);
                                lemma_text_lt_total(name@, name@);
                            } else {
                                lemma_text_lt_total(name@, names[j]);
                            }
                        }
                    }
                    return Slot::Before(i);
                },
            }
        }
        proof {
            assert forall|j: int| 0 <= j < names.len() implies names[j] != name@ by {
                lemma_text_lt_total(names[j], name@);
            }
        }
        Slot::Before(i)
    }

    /// What is registered under `name`, if anything.
    pub fn get(&self, name: &str) -> (r: Option<&V>)
        requires
            self.wf(),
        ensures
            match r {
                Some(v) => self.entries().dom().contains(name@) && *v == self.entries()[name@],
                None => !self.entries().dom().contains(name@),
            },
    {
        match self.slot(name) {
            Slot::At(i) => {
                proof {
                    self.lemma_at(i as int);
                }
                Some(&self.values[i])
            },
            Slot::Before(_) => None,
        }
    }

    /// Registers `value` under `name`, replacing what was there.
    pub fn add(&mut self, name: String, value: V)
        requires
            old(self).wf(),
        ensures
            final(self).wf(),
            final(self).entries() == old(self).entries().insert(name@, value),
    {
        let ghost names0 = texts(self.names@);
        let ghost nv = name@;
        let ghost vv = value;
        match self.slot(name.as_str()) {
            Slot::At(i) => {
                self.values.set(i, value);
                proof {
                    assert(texts(self.names@) == names0);
                    assert forall|k: Seq<char>| #[trigger] self.entries().dom().contains(k) implies self.entries()[k] == old(self).entries().insert(nv, vv)[k] by {
                        let j = names0.index_of(k);
                        assert(0 <= j < names0.len() && names0[j] == k);
                        assert(self.names@[j]@ == k);
                        self.lemma_at(j);
                        if k != nv {
                            old(self).lemma_at(j);
                        } else {
                            self.lemma_at(i as int);
                        }
                    }
                    assert(self.entries().dom() =~= old(self).entries().insert(nv, vv).dom()) by {
                        assert(names0[i as int] == nv);
                    }
                    assert(self.entries() =~= old(self).entries().insert(nv, vv));
                }
            },
            Slot::Before(i) => {
                self.names.insert(i, name);
                self.values.insert(i, value);
                proof {
                    let names1 = texts(self.names@);
                    assert(names1 == names0.insert(i as int, nv));
                    assert forall|a: int, b: int| 0 <= a < b < names1.len() implies text_lt(#[trigger] names1[a], #[trigger] names1[b]) by {
                        if b < i {
                            assert(names1[a] == names0[a] && names1[b] == names0[b]);
                        } else if b == i {
                            assert(names1[a] == names0[a]);
                        } else if a == i {
                            assert(names1[b] == names0[b - 1]);
                            if b - 1 > i {
                                lemma_text_lt_transitive(nv, names0[i as int], names0[b - 1]);
                            }
                        } else if a < i {
                            assert(names1[a] == names0[a] && names1[b] == names0[b - 1]);
                        } else {
                            assert(names1[a] == names0[a - 1] && names1[b] == names0[b - 1]);
                        }
                    }
                    assert forall|k: Seq<char>| #[trigger] self.entries().dom().contains(k) <==> old(self).entries().insert(nv, vv).dom().contains(k) by {
                        if names1.contains(k) {
                            let j = choose|j: int| 0 <= j < names1.len() && names1[j] == k;
                            if j < i {
                                assert(names0[j] == k);
                            } else if j > i {
                                assert(names0[j - 1] == k);
                            }
                        }
                        if names0.contains(k) {
                            let j = choose|j: int| 0 <= j < names0.len() && names0[j] == k;
                            if j < i {
                                assert(names1[j] == k);
                            } else {
                                assert(names1[j + 1] == k);
                            }
                        }
                        if k == nv {
                            assert(names1[i as int] == k);
                        }
                    }
                    assert forall|k: Seq<char>| #[trigger] self.entries().dom().contains(k) implies self.entries()[k] == old(self).entries().insert(nv, vv)[k] by {
                        let j = names1.index_of(k);
                        assert(0 <= j < names1.len() && names1[j] == k);
                        assert(self.names@[j]@ == k);
                        self.lemma_at(j);
                        if j < i {
                            assert(old(self).names@[j] == self.names@[j]);
                            old(self).lemma_at(j);
                        } else if j > i {
                            assert(old(self).names@[j - 1] == self.names@[j]);
                            old(self).lemma_at(j - 1);
                        }
                    }
                    assert(self.entries() =~= old(self).entries().insert(nv, vv));
                }
            },
        }
    }

    /// What is registered, in name order.
    pub fn values(&self) -> (r: &Vec<V>)
        requires
            self.wf(),
        ensures
            r@.len() == self.names().len(),
            forall|i: int| 0 <= i < r@.len() ==> r@[i] == self.entries()[#[trigger] self.names()[i]],
            strictly_sorted(self.names()),
    {
        proof {
            assert forall|i: int| 0 <= i < self.values@.len() implies self.values@[i] == self.entries()[#[trigger] self.names()[i]] by {
                self.lemma_at(i);
            }
        }
        &self.values
    }
}

/// What a lookup gives back of a registration: the value last registered
/// under a name, whatever else was registered after it.
pub proof fn lemma_get_after_add<V>(m: Map<Seq<char>, V>, name: Seq<char>, value: V, other: Seq<char>, other_value: V)
    requires
        other != name,
    ensures
        m.insert(name, value).insert(other, other_value)[name] == value,
        m.insert(name, value).insert(other, other_value).dom().contains(name),
        m.insert(name, value).insert(name, other_value)[name] == other_value,
{
}

} // verus!
