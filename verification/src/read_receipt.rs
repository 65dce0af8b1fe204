//! Read receipts: what one says, and how several are sent as one.
//!
//! A receipt's content maps event ids to the receipts set on them. Sync
//! sends the receipts of a room as a single event whose content gathers
//! those of all of them.

use crate::json_object::{JsonObject, JsonValue};
use vstd::prelude::*;

verus! {

/// The content that the receipts gathered so far add up to: each later
/// receipt's entries in place of an earlier one's for the same event, and
/// receipts that could not be read skipped.
pub open spec fn packed(contents: Seq<Option<JsonObject>>) -> Map<Seq<char>, JsonValue>
    decreases contents.len(),
{
    if contents.len() == 0 {
        Map::empty()
    } else {
        match contents.last() {
            Some(content) => packed(contents.drop_last()).union_prefer_right(content@),
            None => packed(contents.drop_last()),
        }
    }
}

/// Gathers the contents of some receipts into one, in order: `None` stands
/// for a receipt that could not be read, which is skipped.
pub fn pack_receipts(contents: Vec<Option<JsonObject>>) -> (r: JsonObject)
    ensures
        r@ == packed(contents@),
{
    let ghost all = contents@;
    let mut rest = crate::spaces::reversed(contents);
    let mut packed_so_far = JsonObject::new();
    let mut i: usize = 0;
    proof {
        assert(rest.len() <= usize::MAX);
        assert(all.take(0) =~= Seq::<Option<JsonObject>>::empty());
        assert(all.skip(0) =~= all);
    }
    while rest.len() > 0
        invariant
            i + rest.len() == all.len(),
            all.len() <= usize::MAX,
            rest@ == all.skip(i as int).reverse(),
            packed_so_far@ == packed(all.take(i as int)),
        decreases rest.len(),
    {
        let next = rest.pop().unwrap();
        proof {
            assert(next == all[i as int]);
            assert(all.take(i + 1).drop_last() =~= all.take(i as int));
            assert(all.take(i + 1).last() == all[i as int]);
            assert(all.skip(i + 1) =~= all.skip(i as int).drop_first());
            assert(rest@ =~= all.skip(i + 1).reverse());
        }
        match next {
            Some(content) => packed_so_far.extend(content),
            None => {},
        }
        i += 1;
    }
    proof {
        assert(all.take(i as int) =~= all);
    }
    packed_so_far
}

/// The content of a user's private read receipt on an event: the event id,
/// to the private read kind, to the user, to an empty receipt.
pub open spec fn private_read_content(m: Map<Seq<char>, JsonValue>, event_id: Seq<char>, user_id: Seq<char>) -> bool {
    &&& m.dom() == set![event_id]
    &&& m[event_id] matches JsonValue::Object(kinds) && {
        &&& kinds@.dom() == set!["m.read.private"@]
        &&& kinds@["m.read.private"@] matches JsonValue::Object(users) && {
            &&& users@.dom() == set![user_id]
            &&& users@[user_id] matches JsonValue::Object(receipt) && receipt@ == Map::<Seq<char>, JsonValue>::empty()
        }
    }
}

/// The receipt content that tells a user where their private read marker
/// stands: on `event_id`.
pub fn private_read_receipt(event_id: String, user_id: String) -> (r: JsonObject)
    ensures
        private_read_content(r@, event_id@, user_id@),
{
    let ghost e = event_id@;
    let ghost u = user_id@;
    let mut users = JsonObject::new();
    users.insert(user_id, JsonValue::Object(JsonObject::new()));
    let mut kinds = JsonObject::new();
    kinds.insert("m.read.private".to_owned(), JsonValue::Object(users));
    let mut content = JsonObject::new();
    content.insert(event_id, JsonValue::Object(kinds));
    proof {
        assert(content@.dom() =~= set![e]);
    }
    proof {
        let kinds_view = content@[e]->Object_0@;
        assert(kinds_view.dom() =~= set!["m.read.private"@]);
        let users_view = kinds_view["m.read.private"@]->Object_0@;
        assert(users_view.dom() =~= set![u]);
    }
    content
}

/// A stored receipt as sync sends it: without the room id it was stored
/// with.
pub fn receipt_for_sync(stored: JsonObject) -> (r: JsonObject)
    ensures
        r@ == stored@.remove("room_id"@),
{
    let mut event = stored;
    event.remove("room_id");
    event
}

} // verus!
