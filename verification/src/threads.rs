//! Threaded replies, and who has taken part in them.
//!
//! A thread is a root event and the replies that point back at it. What is
//! kept for it is the summary a client wants before it opens one, how many
//! replies there are, folded into the root event as each reply arrives, and
//! the set of users who have posted in it, root sender included.

use crate::json_object::{json_text, json_text_of, JsonObject, JsonValue};
use crate::timeline::unsigned_of;
use crate::text_order::texts;
use vstd::prelude::*;

verus! {

/// The largest integer a JSON number holds exactly, which is where Matrix's
/// unsigned integers stop.
pub const MAX_SAFE_UINT: u64 = 0x001F_FFFF_FFFF_FFFF;

/// The sum of two Matrix unsigned integers, saturating at `MAX_SAFE_UINT`,
/// as `ruma::UInt::saturating_add` computes it.
fn uint_saturating_add(a: u64, b: u64) -> (r: u64)
    requires
        a <= MAX_SAFE_UINT,
        b <= MAX_SAFE_UINT,
    ensures
        r == if a + b <= MAX_SAFE_UINT { (a + b) as u64 } else { MAX_SAFE_UINT },
{
    if a + b <= MAX_SAFE_UINT {
        a + b
    } else {
        MAX_SAFE_UINT
    }
}

/// The reply count of a thread once one more reply arrives: one for a thread
/// with no summary yet, else one more than before, saturating.
pub fn thread_count_after_reply(count: Option<u64>) -> (r: u64)
    requires
        count matches Some(c) ==> c <= MAX_SAFE_UINT,
    ensures
        r == match count {
            Some(c) => if c + 1 <= MAX_SAFE_UINT { (c + 1) as u64 } else { MAX_SAFE_UINT },
            None => 1,
        },
        r <= MAX_SAFE_UINT,
{
    match count {
        Some(c) => uint_saturating_add(c, 1),
        None => 1,
    }
}

/// The participants of a thread once `sender` replies: those recorded, or
/// the root's sender alone where none are, with the sender added at the end
/// unless already there.
pub open spec fn participants_after(recorded: Option<Seq<Seq<char>>>, root_sender: Seq<char>, sender: Seq<char>) -> Seq<Seq<char>> {
    let base = match recorded {
        Some(users) => users,
        None => seq![root_sender],
    };
    if base.contains(sender) {
        base
    } else {
        base.push(sender)
    }
}

/// The participants of a thread once `sender` replies.
pub fn add_participant(recorded: Option<Vec<String>>, root_sender: String, sender: String) -> (r: Vec<String>)
    ensures
        texts(r@) == participants_after(
            match recorded {
                Some(users) => Some(texts(users@)),
                None => None,
            },
            root_sender@,
            sender@,
        ),
{
    let mut users = match recorded {
        Some(users) => users,
        None => {
            let mut users: Vec<String> = Vec::new();
            users.push(root_sender);
            proof {
                assert(texts(users@) == seq![root_sender@]);
            }
            users
        },
    };
    let ghost base = texts(users@);
    let mut present = false;
    let mut i: usize = 0;
    while i < users.len()
        invariant
            i <= users.len(),
            base == texts(users@),
            present <==> exists|j: int| 0 <= j < i && (#[trigger] users@[j])@ == sender@,
        decreases users.len() - i,
    {
        if users[i] == sender {
            present = true;
        }
        proof {
            if present && !(users@[i as int]@ == sender@) {
                let j = choose|j: int| 0 <= j < i && (#[trigger] users@[j])@ == sender@;
                assert(0 <= j < i + 1);
            }
        }
        i += 1;
    }
    proof {
        if present {
            let j = choose|j: int| 0 <= j < i && (#[trigger] users@[j])@ == sender@;
            assert(base[j] == sender@);
        } else {
            assert forall|j: int| 0 <= j < base.len() implies base[j] != sender@ by {
                assert(base[j] == users@[j]@);
            }
        }
    }
    if !present {
        let ghost s = sender@;
        users.push(sender);
        proof {
            assert(texts(users@) == base.push(s));
        }
    }
    users
}

/// A reply's sender is always among the thread's participants afterwards, and
/// no participant recorded before is lost.
pub proof fn lemma_participants_grow(recorded: Option<Seq<Seq<char>>>, root_sender: Seq<char>, sender: Seq<char>)
    ensures
        participants_after(recorded, root_sender, sender).contains(sender),
        recorded matches Some(users) ==> forall|u: Seq<char>| users.contains(u) ==> participants_after(recorded, root_sender, sender).contains(u),
        recorded matches Some(users) && users.no_duplicates() ==> participants_after(recorded, root_sender, sender).no_duplicates(),
{
    let base = match recorded {
        Some(users) => users,
        None => seq![root_sender],
    };
    if !base.contains(sender) {
        assert(base.push(sender)[base.len() as int] == sender);
        assert forall|u: Seq<char>| base.contains(u) implies base.push(sender).contains(u) by {
            let j = choose|j: int| 0 <= j < base.len() && base[j] == u;
            assert(base.push(sender)[j] == u);
        }
    }
}

/// The participant list as it is stored: the users' bytes joined by the
/// separator byte `0xFF`.
pub open spec fn joined_ids(users: Seq<Seq<u8>>) -> Seq<u8>
    decreases users.len(),
{
    if users.len() == 0 {
        Seq::empty()
    } else if users.len() == 1 {
        users[0]
    } else {
        joined_ids(users.drop_last()) + seq![0xFFu8] + users.last()
    }
}

/// The stored form of a participant list.
pub fn participants_value(users: &Vec<Vec<u8>>) -> (r: Vec<u8>)
    ensures
        r@ == joined_ids(users@.map_values(|u: Vec<u8>| u@)),
{
    let ghost all = users@.map_values(|u: Vec<u8>| u@);
    let mut r: Vec<u8> = Vec::new();
    let mut i: usize = 0;
    while i < users.len()
        invariant
            i <= users.len(),
            all == users@.map_values(|u: Vec<u8>| u@),
            r@ == joined_ids(all.take(i as int)),
        decreases users.len() - i,
    {
        proof {
            assert(all.take(i + 1).drop_last() == all.take(i as int));
            assert(all.take(i + 1).last() == users@[i as int]@);
            if i == 0 {
                assert(all.take(1)[0] == users@[0]@);
            }
        }
        if i > 0 {
            r.push(0xFF);
        }
        let ghost head = r@;
        let u = &users[i];
        let mut j: usize = 0;
        while j < u.len()
            invariant
                j <= u.len(),
                r@ == head + u@.take(j as int),
            decreases u.len() - j,
        {
            r.push(u[j]);
            proof {
                assert(u@.take(j + 1) == u@.take(j as int).push(u@[j as int]));
            }
            j += 1;
        }
        proof {
            assert(u@.take(j as int) == u@);
            if i == 0 {
                assert(head == Seq::<u8>::empty());
                assert(r@ == u@);
            }
        }
        i += 1;
    }
    proof {
        assert(all.take(i as int) == all);
    }
    r
}


/// The object at `key` of an object, or an empty one where there is none or
/// it is not an object.
pub open spec fn object_at(m: Map<Seq<char>, JsonValue>, key: Seq<char>) -> Map<Seq<char>, JsonValue> {
    if m.dom().contains(key) && m[key] is Object {
        m[key]->Object_0@
    } else {
        Map::empty()
    }
}

/// The thread summary bundled with a root event, at `m.thread` of the
/// `m.relations` of its `unsigned` section, where both are objects.
pub open spec fn bundled_thread_of(root: Map<Seq<char>, JsonValue>) -> Option<JsonValue> {
    let relations = object_at(unsigned_of(root), "m.relations"@);
    if relations.dom().contains("m.thread"@) {
        Some(relations["m.thread"@])
    } else {
        None
    }
}

/// The thread summary a root event already carries, if any.
pub fn bundled_thread(root_json: &JsonObject) -> (r: Option<&JsonValue>)
    ensures
        match r {
            Some(v) => bundled_thread_of(root_json@) == Some(*v),
            None => bundled_thread_of(root_json@) is None,
        },
{
    match root_json.get("unsigned") {
        Some(JsonValue::Object(unsigned)) => match unsigned.get("m.relations") {
            Some(JsonValue::Object(relations)) => relations.get("m.thread"),
            _ => None,
        },
        _ => None,
    }
}

/// The reply count `ruma` reads out of a thread summary spelled by the JSON
/// text `json`, where the text reads as a `BundledThread`.
pub uninterp spec fn bundled_thread_count(json: Seq<char>) -> Option<u64>;

/// Reads a thread summary's JSON text as ruma's `BundledThread` with
/// `serde_json`, and gives its count.
///
/// Claimed: the result is the name `bundled_thread_count` applied to the
/// text; and, as the `js_int` source shows, a count read is a `UInt`, so at
/// most `MAX_SAFE_UINT`. What reads as a `BundledThread` is not stated.
#[verifier::external_body]
fn read_bundled_thread_count(json: &str) -> (r: Option<u64>)
    ensures
        r == bundled_thread_count(json@),
        r matches Some(c) ==> c <= MAX_SAFE_UINT,
{
    serde_json::from_str::<ruma::events::relation::BundledThread>(json).ok().map(|t| u64::from(t.count))
}

/// The reply count of a stored thread summary, where it reads as one.
pub fn stored_thread_count(thread: &JsonValue) -> (r: Option<u64>)
    ensures
        r == bundled_thread_count(json_text(*thread)),
        r matches Some(c) ==> c <= MAX_SAFE_UINT,
{
    let text = json_text_of(thread);
    read_bundled_thread_count(text.as_str())
}

/// The reply count a thread summary gets once one more reply arrives,
/// given the count a stored summary holds, if it holds one that reads.
pub open spec fn count_after_reply(stored: Option<u64>) -> u64 {
    match stored {
        Some(c) => if c + 1 <= MAX_SAFE_UINT { (c + 1) as u64 } else { MAX_SAFE_UINT },
        None => 1,
    }
}

/// The reply count to bundle with a thread's root once one more reply
/// arrives: one more than the summary the root carries, saturating, or one
/// where it carries none, or one that does not read as a thread summary.
pub fn thread_count_for_reply(root_json: &JsonObject) -> (r: u64)
    ensures
        r == count_after_reply(match bundled_thread_of(root_json@) {
            Some(t) => bundled_thread_count(json_text(t)),
            None => None,
        }),
        r <= MAX_SAFE_UINT,
{
    let stored = match bundled_thread(root_json) {
        Some(thread) => stored_thread_count(thread),
        None => None,
    };
    thread_count_after_reply(stored)
}

/// Whether a root event's `unsigned` section is there and is not an object,
/// which leaves no place to bundle a thread summary.
pub open spec fn unsigned_unusable(root: Map<Seq<char>, JsonValue>) -> bool {
    root.dom().contains("unsigned"@) && !(root["unsigned"@] is Object)
}

/// Bundles a thread summary with its root event, at `m.thread` of the
/// `m.relations` of its `unsigned` section, each made an object where it is
/// missing or, for `m.relations`, not one. A root whose `unsigned` section is
/// not an object is left as it is. Says whether the root changed, which is
/// when it is written back.
pub fn bundle_thread(root_json: &mut JsonObject, thread: JsonValue) -> (r: bool)
    ensures
        unsigned_unusable(old(root_json)@) ==> !r && final(root_json)@ == old(root_json)@,
        !unsigned_unusable(old(root_json)@) ==> {
            &&& r
            &&& final(root_json)@.remove("unsigned"@) == old(root_json)@.remove("unsigned"@)
            &&& final(root_json)@.dom().contains("unsigned"@)
            &&& final(root_json)@["unsigned"@] matches JsonValue::Object(u) && {
                &&& u@.remove("m.relations"@) == unsigned_of(old(root_json)@).remove("m.relations"@)
                &&& u@.dom().contains("m.relations"@)
                &&& u@["m.relations"@] matches JsonValue::Object(relations)
                    && relations@ == object_at(unsigned_of(old(root_json)@), "m.relations"@).insert("m.thread"@, thread)
            }
        },
{
    let ghost start = root_json@;
    let mut unsigned = match root_json.remove("unsigned") {
        None => JsonObject::new(),
        Some(JsonValue::Object(object)) => object,
        Some(other) => {
            root_json.insert("unsigned".to_owned(), other);
            proof {
                assert(root_json@ =~= start);
            }
            return false;
        },
    };
    let ghost unsigned_before = unsigned@;
    let mut relations = match unsigned.remove("m.relations") {
        Some(JsonValue::Object(object)) => object,
        _ => JsonObject::new(),
    };
    relations.insert("m.thread".to_owned(), thread);
    unsigned.insert("m.relations".to_owned(), JsonValue::Object(relations));
    proof {
        assert(unsigned@.remove("m.relations"@) =~= unsigned_before.remove("m.relations"@));
    }
    root_json.insert("unsigned".to_owned(), JsonValue::Object(unsigned));
    proof {
        assert(root_json@.remove("unsigned"@) =~= start.remove("unsigned"@));
    }
    true
}

} // verus!
