//! Maps keyed by text, and the JSON objects events carry, which are such maps.
//!
//! The parts of an event that the service fills in or edits (the content of a
//! member event, an event's `unsigned` section, a receipt's content) are
//! objects of this kind, each key at most once with a value. Seen from
//! outside, a map is a mathematical map from key texts to values; the order
//! in which keys were added is not part of it, as it is not of the canonical
//! JSON an event is written in.

use crate::search::push_char;
use vstd::std_specs::iter::IteratorSpec;
use vstd::prelude::*;

verus! {

/// A JSON value.
#[derive(Debug)]
pub enum JsonValue {
    /// `null`.
    Null,
    /// `true` or `false`.
    Bool(bool),
    /// An integer.
    Integer(i64),
    /// A string.
    Str(String),
    /// An array.
    Array(Vec<JsonValue>),
    /// An object.
    Object(JsonObject),
}

/// A map from texts to values, each key at most once.
#[derive(Debug)]
pub struct TextMap<V> {
    entries: Vec<(String, V)>,
}

/// A JSON object.
pub type JsonObject = TextMap<JsonValue>;

/// Whether `v` is the string `text`.
pub open spec fn is_text(v: JsonValue, text: Seq<char>) -> bool {
    v matches JsonValue::Str(s) && s@ == text
}

/// Whether no key occurs twice among some entries.
pub closed spec fn keys_distinct<V>(s: Seq<(String, V)>) -> bool {
    forall|i: int, j: int| 0 <= i < j < s.len() ==> (#[trigger] s[i]).0@ != (#[trigger] s[j]).0@
}

/// Whether some entry has key `k`.
closed spec fn has_key<V>(s: Seq<(String, V)>, k: Seq<char>) -> bool {
    exists|i: int| 0 <= i < s.len() && (#[trigger] s[i]).0@ == k
}

/// The map that some entries spell.
closed spec fn entry_map<V>(s: Seq<(String, V)>) -> Map<Seq<char>, V> {
    Map::new(
        |k: Seq<char>| has_key(s, k),
        |k: Seq<char>| s[choose|i: int| 0 <= i < s.len() && (#[trigger] s[i]).0@ == k].1,
    )
}

/// With distinct keys, the map holds each entry's value at its key.
proof fn lemma_value_at<V>(s: Seq<(String, V)>, i: int)
    requires
        keys_distinct(s),
        0 <= i < s.len(),
    ensures
        entry_map(s).dom().contains(s[i].0@),
        entry_map(s)[s[i].0@] == s[i].1,
{
    let k = s[i].0@;
    assert(has_key(s, k));
    let j = choose|j: int| 0 <= j < s.len() && (#[trigger] s[j]).0@ == k;
    if j < i {
        assert(s[j].0@ != s[i].0@);
    } else if i < j {
        assert(s[i].0@ != s[j].0@);
    }
}

impl<V> View for TextMap<V> {
    type V = Map<Seq<char>, V>;

    closed spec fn view(&self) -> Map<Seq<char>, V> {
        entry_map(self.entries@)
    }
}

impl<V> TextMap<V> {
    #[verifier::type_invariant]
    closed spec fn wf(self) -> bool {
        keys_distinct(self.entries@)
    }

    /// The empty map.
    pub fn new() -> (r: Self)
        ensures
            r@ == Map::<Seq<char>, V>::empty(),
    {
        let r = TextMap { entries: Vec::new() };
        proof {
            assert(r@ =~= Map::<Seq<char>, V>::empty());
        }
        r
    }

    /// Where among the entries `key` stands, if it does.
    fn position(entries: &Vec<(String, V)>, key: &String) -> (r: Option<usize>)
        ensures
            match r {
                Some(i) => i < entries.len() && entries@[i as int].0@ == key@,
                None => !has_key(entries@, key@),
            },
    {
        let mut i: usize = 0;
        while i < entries.len()
            invariant
                i <= entries.len(),
                forall|j: int| 0 <= j < i ==> (#[trigger] entries@[j]).0@ != key@,
            decreases entries.len() - i,
        {
            if entries[i].0 == *key {
                return Some(i);
            }
            i += 1;
        }
        None
    }

    /// The value at `key`, if the map has it.
    pub fn get(&self, key: &str) -> (r: Option<&V>)
        ensures
            match r {
                Some(v) => self@.dom().contains(key@) && *v == self@[key@],
                None => !self@.dom().contains(key@),
            },
    {
        proof {
            use_type_invariant(self);
        }
        let k = key.to_owned();
        match Self::position(&self.entries, &k) {
            Some(i) => {
                proof {
                    lemma_value_at(self.entries@, i as int);
                }
                Some(&self.entries[i].1)
            },
            None => None,
        }
    }

    /// Sets `key` to `value`, in place of any value it had.
    pub fn insert(&mut self, key: String, value: V)
        ensures
            final(self)@ == old(self)@.insert(key@, value),
    {
        proof {
            use_type_invariant(&*self);
        }
        let mut entries: Vec<(String, V)> = Vec::new();
        std::mem::swap(&mut entries, &mut self.entries);
        let ghost before = entries@;
        let ghost k = key@;
        match Self::position(&entries, &key) {
            Some(i) => {
                entries[i] = (key, value);
                proof {
                    let after = entries@;
                    assert(after == before.update(i as int, (after[i as int].0, value)));
                    assert(keys_distinct(after)) by {
                        assert forall|a: int, b: int| 0 <= a < b < after.len() implies (#[trigger] after[a]).0@ != (#[trigger] after[b]).0@ by {
                            if a != i && b != i {
                                assert(before[a].0@ != before[b].0@);
                            } else if a == i {
                                assert(before[a].0@ != before[b].0@);
                            } else {
                                assert(before[a].0@ != before[b].0@);
                            }
                        }
                    }
                    Self::lemma_replaced(before, after, i as int);
                }
            },
            None => {
                entries.push((key, value));
                proof {
                    let after = entries@;
                    assert(after == before.push(after[before.len() as int]));
                    assert(keys_distinct(after)) by {
                        assert forall|a: int, b: int| 0 <= a < b < after.len() implies (#[trigger] after[a]).0@ != (#[trigger] after[b]).0@ by {
                            if b < before.len() {
                                assert(before[a].0@ != before[b].0@);
                            } else {
                                assert(after[a] == before[a]);
                            }
                        }
                    }
                    Self::lemma_pushed(before, after);
                }
            },
        }
        self.entries = entries;
    }

    /// Whether the map has `key`.
    pub fn contains_key(&self, key: &str) -> (r: bool)
        ensures
            r == self@.dom().contains(key@),
    {
        self.get(key).is_some()
    }

    /// The keys with their values, each key once, in no particular
    /// order.
    pub fn into_entries(self) -> (r: Vec<(String, V)>)
        ensures
            forall|i: int, j: int| 0 <= i < j < r.len() ==> (#[trigger] r@[i]).0@ != (#[trigger] r@[j]).0@,
            forall|i: int| 0 <= i < r.len() ==> self@.dom().contains((#[trigger] r@[i]).0@) && self@[r@[i].0@] == r@[i].1,
            forall|k: Seq<char>| #[trigger] self@.dom().contains(k) ==> exists|i: int| 0 <= i < r.len() && (#[trigger] r@[i]).0@ == k,
    {
        proof {
            use_type_invariant(&self);
            assert forall|i: int| 0 <= i < self.entries.len() implies self@.dom().contains((#[trigger] self.entries@[i]).0@) && self@[self.entries@[i].0@] == self.entries@[i].1 by {
                lemma_value_at(self.entries@, i);
            }
        }
        let TextMap { entries } = self;
        entries
    }

    /// Takes `key` and its value out of the map, if it has it.
    pub fn remove(&mut self, key: &str) -> (r: Option<V>)
        ensures
            final(self)@ == old(self)@.remove(key@),
            match r {
                Some(v) => old(self)@.dom().contains(key@) && v == old(self)@[key@],
                None => !old(self)@.dom().contains(key@),
            },
    {
        proof {
            use_type_invariant(&*self);
        }
        let mut entries: Vec<(String, V)> = Vec::new();
        std::mem::swap(&mut entries, &mut self.entries);
        let ghost before = entries@;
        let k = key.to_owned();
        match Self::position(&entries, &k) {
            Some(i) => {
                proof {
                    lemma_value_at(before, i as int);
                }
                let (_, value) = entries.remove(i);
                proof {
                    Self::lemma_removed(before, entries@, i as int);
                }
                self.entries = entries;
                Some(value)
            },
            None => {
                proof {
                    assert(entry_map(before).remove(key@) =~= entry_map(before));
                }
                self.entries = entries;
                None
            },
        }
    }

    /// The map after one entry is taken out.
    proof fn lemma_removed(before: Seq<(String, V)>, after: Seq<(String, V)>, i: int)
        requires
            keys_distinct(before),
            0 <= i < before.len(),
            after == before.remove(i),
        ensures
            keys_distinct(after),
            entry_map(after) == entry_map(before).remove(before[i].0@),
    {
        assert forall|a: int, b: int| 0 <= a < b < after.len() implies (#[trigger] after[a]).0@ != (#[trigger] after[b]).0@ by {
            let a0 = if a < i { a } else { a + 1 };
            let b0 = if b < i { b } else { b + 1 };
            assert(after[a] == before[a0] && after[b] == before[b0]);
            assert(before[a0].0@ != before[b0].0@);
        }
        let m = entry_map(before).remove(before[i].0@);
        assert forall|k: Seq<char>| entry_map(after).dom().contains(k) <==> m.dom().contains(k) by {
            if has_key(after, k) {
                let j = choose|j: int| 0 <= j < after.len() && (#[trigger] after[j]).0@ == k;
                let j0 = if j < i { j } else { j + 1 };
                assert(before[j0].0@ == k);
                assert(before[j0].0@ != before[i].0@);
            }
            if has_key(before, k) && k != before[i].0@ {
                let j = choose|j: int| 0 <= j < before.len() && (#[trigger] before[j]).0@ == k;
                if j < i {
                    assert(after[j].0@ == k);
                } else {
                    assert(after[j - 1].0@ == k);
                }
            }
        }
        assert forall|k: Seq<char>| #[trigger] entry_map(after).dom().contains(k) implies entry_map(after)[k] == m[k] by {
            let j = choose|j: int| 0 <= j < after.len() && (#[trigger] after[j]).0@ == k;
            lemma_value_at(after, j);
            let j0 = if j < i { j } else { j + 1 };
            assert(after[j] == before[j0]);
            lemma_value_at(before, j0);
        }
        assert(entry_map(after) =~= m);
    }

    /// The map of some entries is that of all but the first, with the first
    /// added.
    proof fn lemma_first_added(s: Seq<(String, V)>, n: int)
        requires
            keys_distinct(s),
            1 <= n <= s.len(),
        ensures
            entry_map(s.skip(n - 1)) == entry_map(s.skip(n)).insert(s[n - 1].0@, s[n - 1].1),
    {
        let big = s.skip(n - 1);
        let small = s.skip(n);
        assert forall|a: int, b: int| 0 <= a < b < big.len() implies (#[trigger] big[a]).0@ != (#[trigger] big[b]).0@ by {
            assert(big[a] == s[a + n - 1] && big[b] == s[b + n - 1]);
        }
        assert forall|a: int, b: int| 0 <= a < b < small.len() implies (#[trigger] small[a]).0@ != (#[trigger] small[b]).0@ by {
            assert(small[a] == s[a + n] && small[b] == s[b + n]);
        }
        let m = entry_map(small).insert(s[n - 1].0@, s[n - 1].1);
        assert forall|k: Seq<char>| entry_map(big).dom().contains(k) <==> m.dom().contains(k) by {
            if has_key(big, k) {
                let j = choose|j: int| 0 <= j < big.len() && (#[trigger] big[j]).0@ == k;
                if j > 0 {
                    assert(small[j - 1] == big[j]);
                }
            }
            if has_key(small, k) {
                let j = choose|j: int| 0 <= j < small.len() && (#[trigger] small[j]).0@ == k;
                assert(big[j + 1] == small[j]);
            }
            if k == s[n - 1].0@ {
                assert(big[0] == s[n - 1]);
            }
        }
        assert forall|k: Seq<char>| #[trigger] entry_map(big).dom().contains(k) implies entry_map(big)[k] == m[k] by {
            let j = choose|j: int| 0 <= j < big.len() && (#[trigger] big[j]).0@ == k;
            lemma_value_at(big, j);
            if j > 0 {
                assert(small[j - 1] == big[j]);
                lemma_value_at(small, j - 1);
                assert(big[0].0@ != big[j].0@);
            } else {
                assert(big[0] == s[n - 1]);
            }
        }
        assert(entry_map(big) =~= m);
    }

    /// Adds every key of `other` with its value, in place of any value the
    /// key had here: the later map wins.
    pub fn extend(&mut self, other: Self)
        ensures
            final(self)@ == old(self)@.union_prefer_right(other@),
    {
        proof {
            use_type_invariant(&other);
        }
        let ghost all = other.entries@;
        let ghost start = self@;
        let TextMap { entries: mut rest } = other;
        proof {
            assert(all.skip(all.len() as int) =~= Seq::<(String, V)>::empty());
            assert(entry_map(Seq::<(String, V)>::empty()) =~= Map::<Seq<char>, V>::empty());
            assert(start.union_prefer_right(Map::<Seq<char>, V>::empty()) =~= start);
            assert(all.take(all.len() as int) =~= all);
        }
        while rest.len() > 0
            invariant
                keys_distinct(all),
                rest.len() <= all.len(),
                rest@ == all.take(rest.len() as int),
                self@ == start.union_prefer_right(entry_map(all.skip(rest.len() as int))),
            decreases rest.len(),
        {
            let ghost n = rest.len() as int;
            let (k, v) = rest.pop().unwrap();
            proof {
                assert(all[n - 1] == (k, v));
                assert(rest@ =~= all.take(n - 1));
                Self::lemma_first_added(all, n);
            }
            let ghost before = self@;
            self.insert(k, v);
            proof {
                let tail = entry_map(all.skip(n));
                assert(self@ =~= start.union_prefer_right(tail.insert(all[n - 1].0@, all[n - 1].1)));
            }
        }
        proof {
            assert(all.skip(0) =~= all);
        }
    }

    /// Adds every key of `other` that this map lacks, with its value:
    /// the keys this map has keep their values.
    pub fn fill_from(&mut self, other: Self)
        ensures
            final(self)@ == other@.union_prefer_right(old(self)@),
    {
        let mut mine = other;
        std::mem::swap(self, &mut mine);
        self.extend(mine);
    }

    /// The map after one entry is replaced by one with the same key.
    proof fn lemma_replaced(before: Seq<(String, V)>, after: Seq<(String, V)>, i: int)
        requires
            keys_distinct(before),
            keys_distinct(after),
            0 <= i < before.len(),
            after.len() == before.len(),
            after[i].0@ == before[i].0@,
            forall|j: int| 0 <= j < before.len() && j != i ==> after[j] == before[j],
        ensures
            entry_map(after) == entry_map(before).insert(before[i].0@, after[i].1),
    {
        let m = entry_map(before).insert(before[i].0@, after[i].1);
        assert forall|k: Seq<char>| entry_map(after).dom().contains(k) <==> m.dom().contains(k) by {
            if has_key(after, k) {
                let j = choose|j: int| 0 <= j < after.len() && (#[trigger] after[j]).0@ == k;
                if j != i {
                    assert(before[j].0@ == k);
                }
            }
            if has_key(before, k) {
                let j = choose|j: int| 0 <= j < before.len() && (#[trigger] before[j]).0@ == k;
                assert(after[j].0@ == k);
            }
            if k == before[i].0@ {
                assert(after[i].0@ == k);
            }
        }
        assert forall|k: Seq<char>| #[trigger] entry_map(after).dom().contains(k) implies entry_map(after)[k] == m[k] by {
            let j = choose|j: int| 0 <= j < after.len() && (#[trigger] after[j]).0@ == k;
            lemma_value_at(after, j);
            if j != i {
                assert(before[j] == after[j]);
                lemma_value_at(before, j);
            }
        }
        assert(entry_map(after) =~= m);
    }

    /// The map after an entry with a new key is added.
    proof fn lemma_pushed(before: Seq<(String, V)>, after: Seq<(String, V)>)
        requires
            keys_distinct(after),
            after.len() == before.len() + 1,
            forall|j: int| 0 <= j < before.len() ==> after[j] == before[j],
        ensures
            keys_distinct(before),
            entry_map(after) == entry_map(before).insert(after[before.len() as int].0@, after[before.len() as int].1),
    {
        let n = before.len() as int;
        assert forall|a: int, b: int| 0 <= a < b < before.len() implies (#[trigger] before[a]).0@ != (#[trigger] before[b]).0@ by {
            assert(after[a].0@ != after[b].0@);
        }
        let m = entry_map(before).insert(after[n].0@, after[n].1);
        assert forall|k: Seq<char>| entry_map(after).dom().contains(k) <==> m.dom().contains(k) by {
            if has_key(after, k) {
                let j = choose|j: int| 0 <= j < after.len() && (#[trigger] after[j]).0@ == k;
                if j < n {
                    assert(before[j].0@ == k);
                }
            }
            if has_key(before, k) {
                let j = choose|j: int| 0 <= j < before.len() && (#[trigger] before[j]).0@ == k;
                assert(after[j].0@ == k);
            }
            if k == after[n].0@ {
                assert(after[n].0@ == k);
            }
        }
        assert forall|k: Seq<char>| #[trigger] entry_map(after).dom().contains(k) implies entry_map(after)[k] == m[k] by {
            let j = choose|j: int| 0 <= j < after.len() && (#[trigger] after[j]).0@ == k;
            lemma_value_at(after, j);
            if j < n {
                assert(before[j] == after[j]);
                lemma_value_at(before, j);
            }
        }
        assert(entry_map(after) =~= m);
    }
}

/// The digits of hexadecimal, which begin with those of decimal.
pub open spec fn hex_digits() -> Seq<char> {
    seq!['0', '1', '2', '3', '4', '5', '6', '7', '8', '9', 'a', 'b', 'c', 'd', 'e', 'f']
}

/// The decimal digits of `n`.
pub open spec fn decimal(n: nat) -> Seq<char>
    decreases n,
{
    if n < 10 {
        seq![hex_digits()[n as int]]
    } else {
        decimal(n / 10).push(hex_digits()[(n % 10) as int])
    }
}

/// An integer as JSON writes it.
pub open spec fn integer_text(i: int) -> Seq<char> {
    if i < 0 {
        seq!['-'] + decimal((-i) as nat)
    } else {
        decimal(i as nat)
    }
}

/// A character inside a JSON string: a quote and a backslash are escaped
/// with a backslash, a control character as `\u00` and its two hex digits.
pub open spec fn escaped_char(c: char) -> Seq<char> {
    if c == '"' {
        seq!['\\', '"']
    } else if c == '\\' {
        seq!['\\', '\\']
    } else if (c as u32) < 0x20 {
        seq!['\\', 'u', '0', '0', hex_digits()[((c as u32) / 16) as int], hex_digits()[((c as u32) % 16) as int]]
    } else {
        seq![c]
    }
}

/// A text as the inside of a JSON string.
pub open spec fn escaped(s: Seq<char>) -> Seq<char>
    decreases s.len(),
{
    if s.len() == 0 {
        Seq::empty()
    } else {
        escaped(s.drop_last()) + escaped_char(s.last())
    }
}

/// A text as a JSON string.
pub open spec fn quoted(s: Seq<char>) -> Seq<char> {
    seq!['"'] + escaped(s) + seq!['"']
}

/// The JSON text of a value: an object's members in the order the map holds
/// them, with no space anywhere.
pub closed spec fn json_text(v: JsonValue) -> Seq<char>
    decreases v,
{
    match v {
        JsonValue::Null => seq!['n', 'u', 'l', 'l'],
        JsonValue::Bool(b) => if b { seq!['t', 'r', 'u', 'e'] } else { seq!['f', 'a', 'l', 's', 'e'] },
        JsonValue::Integer(i) => integer_text(i as int),
        JsonValue::Str(s) => quoted(s@),
        JsonValue::Array(a) => seq!['['] + items_text(a@) + seq![']'],
        JsonValue::Object(o) => seq!['{'] + members_text(o.entries@) + seq!['}'],
    }
}

/// The JSON texts of values, separated by commas.
closed spec fn items_text(s: Seq<JsonValue>) -> Seq<char>
    decreases s,
{
    if s.len() == 0 {
        Seq::empty()
    } else if s.len() == 1 {
        json_text(s[0])
    } else {
        items_text(s.drop_last()) + seq![','] + json_text(s[s.len() - 1])
    }
}

/// The JSON texts of an object's members, separated by commas.
closed spec fn members_text(s: Seq<(String, JsonValue)>) -> Seq<char>
    decreases s,
{
    if s.len() == 0 {
        Seq::empty()
    } else {
        let m = s[s.len() - 1];
        let member = quoted(m.0@) + seq![':'] + json_text(m.1);
        if s.len() == 1 {
            member
        } else {
            members_text(s.drop_last()) + seq![','] + member
        }
    }
}

/// The hexadecimal digit `d`.
fn hex_char(d: u32) -> (c: char)
    requires
        d < 16,
    ensures
        c == hex_digits()[d as int],
{
    let t: [char; 16] = ['0', '1', '2', '3', '4', '5', '6', '7', '8', '9', 'a', 'b', 'c', 'd', 'e', 'f'];
    proof {
        assert(t@ =~= hex_digits());
    }
    t[d as usize]
}

/// Appends the decimal digits of `n`.
fn push_decimal(out: &mut String, n: u64)
    ensures
        final(out)@ == old(out)@ + decimal(n as nat),
    decreases n,
{
    let ghost start = out@;
    if n >= 10 {
        push_decimal(out, n / 10);
    }
    let ghost mid = out@;
    push_char(out, hex_char((n % 10) as u32));
    proof {
        if n >= 10 {
            assert(out@ =~= start + decimal((n / 10) as nat).push(hex_digits()[(n % 10) as int]));
        } else {
            assert(out@ =~= start + seq![hex_digits()[n as int]]);
        }
    }
}

/// Appends an integer as JSON writes it.
fn push_integer(out: &mut String, i: i64)
    ensures
        final(out)@ == old(out)@ + integer_text(i as int),
{
    let ghost start = out@;
    if i < 0 {
        push_char(out, '-');
        let m: u64 = ((-(i + 1)) as u64) + 1;
        push_decimal(out, m);
        proof {
            assert(m as nat == (-i) as nat);
            assert(out@ =~= start + (seq!['-'] + decimal((-i) as nat)));
        }
    } else {
        push_decimal(out, i as u64);
    }
}

/// Appends a character as it stands inside a JSON string.
fn push_escaped_char(out: &mut String, c: char)
    ensures
        final(out)@ == old(out)@ + escaped_char(c),
{
    let ghost start = out@;
    if c == '"' {
        push_char(out, '\\');
        push_char(out, '"');
    } else if c == '\\' {
        push_char(out, '\\');
        push_char(out, '\\');
    } else if (c as u32) < 0x20 {
        push_char(out, '\\');
        push_char(out, 'u');
        push_char(out, '0');
        push_char(out, '0');
        push_char(out, hex_char((c as u32) / 16));
        push_char(out, hex_char((c as u32) % 16));
    } else {
        push_char(out, c);
    }
    proof {
        assert(out@ =~= start + escaped_char(c));
    }
}

/// Appends a text as a JSON string.
fn push_quoted(out: &mut String, text: &str)
    ensures
        final(out)@ == old(out)@ + quoted(text@),
{
    let ghost start = out@;
    push_char(out, '"');
    let mut chars = text.chars();
    let ghost mut n: int = 0;
    proof {
        assert(text@.take(0) =~= Seq::<char>::empty());
        assert(out@ =~= start + seq!['"'] + escaped(text@.take(0)));
    }
    loop
        invariant
            0 <= n <= text@.len(),
            chars.obeys_prophetic_iter_laws(),
            chars.remaining() == text@.skip(n),
            out@ == start + seq!['"'] + escaped(text@.take(n)),
        ensures
            out@ == start + seq!['"'] + escaped(text@),
        decreases text@.len() - n,
    {
        let ghost before = chars.remaining();
        match chars.next() {
            Some(c) => {
                proof {
                    assert(before.len() > 0);
                    assert(c == text@[n]);
                    assert(text@.take(n + 1).drop_last() =~= text@.take(n));
                    assert(text@.take(n + 1).last() == c);
                    assert(chars.remaining() =~= text@.skip(n + 1));
                }
                let ghost prev = out@;
                push_escaped_char(out, c);
                proof {
                    assert(escaped(text@.take(n + 1)) == escaped(text@.take(n)) + escaped_char(c));
                    assert(out@ =~= start + seq!['"'] + escaped(text@.take(n + 1)));
                    n = n + 1;
                }
            },
            None => {
                proof {
                    assert(before.len() == 0);
                    assert(text@.take(n) =~= text@);
                }
                break;
            },
        }
    }
    push_char(out, '"');
    proof {
        assert(out@ =~= start + quoted(text@));
    }
}

/// Appends the JSON text of a value.
fn push_json(out: &mut String, v: &JsonValue)
    ensures
        final(out)@ == old(out)@ + json_text(*v),
    decreases v,
{
    let ghost start = out@;
    match v {
        JsonValue::Null => {
            push_char(out, 'n');
            push_char(out, 'u');
            push_char(out, 'l');
            push_char(out, 'l');
        },
        JsonValue::Bool(b) => {
            if *b {
                push_char(out, 't');
                push_char(out, 'r');
                push_char(out, 'u');
                push_char(out, 'e');
            } else {
                push_char(out, 'f');
                push_char(out, 'a');
                push_char(out, 'l');
                push_char(out, 's');
                push_char(out, 'e');
            }
        },
        JsonValue::Integer(i) => push_integer(out, *i),
        JsonValue::Str(text) => push_quoted(out, text.as_str()),
        JsonValue::Array(a) => {
            push_char(out, '[');
            let mut i: usize = 0;
            proof {
                assert(a@.take(0) =~= Seq::<JsonValue>::empty());
                assert(out@ =~= start + seq!['['] + items_text(a@.take(0)));
            }
            while i < a.len()
                invariant
                    i <= a.len(),
                    *v == JsonValue::Array(*a),
                    out@ == start + seq!['['] + items_text(a@.take(i as int)),
                decreases a.len() - i,
            {
                let ghost prev = out@;
                if i > 0 {
                    push_char(out, ',');
                }
                proof {
                    assert(*v == JsonValue::Array(*a));
                    assert(decreases_to!(*v => (*v)->Array_0));
                    vstd::std_specs::vec::axiom_vec_index_decreases(*a, i as int);
                    assert(decreases_to!(*v => a[i as int]));
                }
                push_json(out, &a[i]);
                proof {
                    let t = a@.take(i + 1);
                    assert(t.drop_last() =~= a@.take(i as int));
                    assert(t[t.len() - 1] == a@[i as int]);
                    if i == 0 {
                        assert(t[0] == a@[0]);
                    }
                    assert(out@ =~= start + seq!['['] + items_text(t));
                }
                i += 1;
            }
            push_char(out, ']');
            proof {
                assert(a@.take(a.len() as int) =~= a@);
            }
        },
        JsonValue::Object(o) => {
            push_char(out, '{');
            let entries = &o.entries;
            let mut i: usize = 0;
            proof {
                assert(entries@.take(0) =~= Seq::<(String, JsonValue)>::empty());
                assert(out@ =~= start + seq!['{'] + members_text(entries@.take(0)));
            }
            while i < entries.len()
                invariant
                    i <= entries.len(),
                    *entries == o.entries,
                    *v == JsonValue::Object(*o),
                    out@ == start + seq!['{'] + members_text(entries@.take(i as int)),
                decreases entries.len() - i,
            {
                if i > 0 {
                    push_char(out, ',');
                }
                let ghost before_member = out@;
                push_quoted(out, entries[i].0.as_str());
                push_char(out, ':');
                proof {
                    assert(*v == JsonValue::Object(*o));
                    assert(decreases_to!(*v => (*v)->Object_0));
                    assert(decreases_to!(*o => o.entries));
                    vstd::std_specs::vec::axiom_vec_index_decreases(o.entries, i as int);
                    assert(decreases_to!(o.entries[i as int] => entries[i as int].1));
                    assert(decreases_to!(*v => entries[i as int].1));
                }
                push_json(out, &entries[i].1);
                proof {
                    let t = entries@.take(i + 1);
                    assert(t.drop_last() =~= entries@.take(i as int));
                    assert(t[t.len() - 1] == entries@[i as int]);
                    assert(out@ =~= start + seq!['{'] + members_text(t));
                }
                i += 1;
            }
            push_char(out, '}');
            proof {
                assert(entries@.take(entries.len() as int) =~= entries@);
            }
        },
    }
    proof {
        assert(out@ =~= start + json_text(*v));
    }
}

/// The JSON text of a value.
pub fn json_text_of(v: &JsonValue) -> (r: String)
    ensures
        r@ == json_text(*v),
{
    let mut r = String::new();
    push_json(&mut r, v);
    proof {
        assert(r@ =~= json_text(*v));
    }
    r
}

} // verus!
