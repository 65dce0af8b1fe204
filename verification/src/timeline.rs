//! The decisions made when an event is appended to a room's timeline: who
//! is notified of it, what it sets off, what it relates to, and which
//! appservices are told of it.

use crate::json_object::{JsonObject, JsonValue};
use crate::room_version::known_room_version;
use crate::text_order::texts;
use vstd::prelude::*;

verus! {

/// The local users an event's push rules are evaluated for: the room's
/// active local members other than its sender who do not ignore the sender,
/// in order.
pub open spec fn push_targets_of(members: Seq<Seq<char>>, ignoring: Seq<bool>, sender: Seq<char>) -> Seq<Seq<char>>
    decreases members.len(),
{
    if members.len() == 0 {
        Seq::empty()
    } else {
        let rest = push_targets_of(members.drop_last(), ignoring.drop_last(), sender);
        if members.last() != sender && !ignoring.last() {
            rest.push(members.last())
        } else {
            rest
        }
    }
}

/// Who is a push target: exactly the members, wherever they stand in the
/// list, that are not the sender and do not ignore it. Each comes once for
/// each place it has among the members, in the members' order: the targets
/// of two lists one after the other are those of each, in turn.
pub proof fn lemma_push_targets_are_the_members_who_listen(
    members: Seq<Seq<char>>,
    ignoring: Seq<bool>,
    sender: Seq<char>,
)
    requires
        ignoring.len() == members.len(),
    ensures
        forall|x: Seq<char>| #[trigger] push_targets_of(members, ignoring, sender).contains(x) <==> exists|i: int|
            0 <= i < members.len() && members[i] == x && x != sender && !ignoring[i],
        forall|i: int| 0 <= i < members.len() && members[i] != sender && !ignoring[i]
            ==> push_targets_of(members, ignoring, sender).contains(#[trigger] members[i]),
    decreases members.len(),
{
    let t = push_targets_of(members, ignoring, sender);
    if members.len() > 0 {
        let m0 = members.drop_last();
        let i0 = ignoring.drop_last();
        lemma_push_targets_are_the_members_who_listen(m0, i0, sender);
        let rest = push_targets_of(m0, i0, sender);
        let last = members.len() - 1;
        assert(members.last() == members[last]);
        assert(ignoring.last() == ignoring[last]);
        assert forall|x: Seq<char>| t.contains(x) <==> exists|i: int|
            0 <= i < members.len() && members[i] == x && x != sender && !ignoring[i] by {
            if t.contains(x) {
                let k = choose|k: int| 0 <= k < t.len() && t[k] == x;
                if k < rest.len() {
                    assert(t[k] == rest[k]);
                    assert(rest.contains(x));
                    let i = choose|i: int| 0 <= i < m0.len() && m0[i] == x && x != sender && !i0[i];
                    assert(members[i] == m0[i] && ignoring[i] == i0[i]);
                } else {
                    assert(x == members[last]);
                }
            }
            if exists|i: int| 0 <= i < members.len() && members[i] == x && x != sender && !ignoring[i] {
                let i = choose|i: int| 0 <= i < members.len() && members[i] == x && x != sender && !ignoring[i];
                if i < last {
                    assert(m0[i] == x && !i0[i]);
                    assert(rest.contains(x));
                    let k = choose|k: int| 0 <= k < rest.len() && rest[k] == x;
                    assert(t[k] == x);
                } else {
                    assert(t[t.len() - 1] == x);
                }
            }
        }
    } else {
        assert forall|x: Seq<char>| !t.contains(x) by {}
    }
    assert forall|i: int| 0 <= i < members.len() && members[i] != sender && !ignoring[i]
        implies t.contains(#[trigger] members[i]) by {
        assert(exists|j: int| 0 <= j < members.len() && members[j] == members[i] && members[i] != sender && !ignoring[j]);
    }
}

/// The push targets of members listed one after another are those of each
/// list, in turn: the targets keep the members' order.
pub proof fn lemma_push_targets_in_order(
    m1: Seq<Seq<char>>,
    i1: Seq<bool>,
    m2: Seq<Seq<char>>,
    i2: Seq<bool>,
    sender: Seq<char>,
)
    requires
        i1.len() == m1.len(),
        i2.len() == m2.len(),
    ensures
        push_targets_of(m1 + m2, i1 + i2, sender) == push_targets_of(m1, i1, sender) + push_targets_of(m2, i2, sender),
    decreases m2.len(),
{
    if m2.len() == 0 {
        assert(m1 + m2 =~= m1);
        assert(i1 + i2 =~= i1);
        assert(push_targets_of(m1, i1, sender) + Seq::<Seq<char>>::empty() =~= push_targets_of(m1, i1, sender));
    } else {
        lemma_push_targets_in_order(m1, i1, m2.drop_last(), i2.drop_last(), sender);
        assert((m1 + m2).drop_last() =~= m1 + m2.drop_last());
        assert((i1 + i2).drop_last() =~= i1 + i2.drop_last());
        assert((m1 + m2).last() == m2.last());
        assert((i1 + i2).last() == i2.last());
        let a = push_targets_of(m1, i1, sender);
        let b = push_targets_of(m2.drop_last(), i2.drop_last(), sender);
        assert((a + b).push(m2.last()) =~= a + b.push(m2.last()));
    }
}

/// The users an event is evaluated for: the push targets, then the target of
/// a membership event where it is an active local user. `ignoring[i]` says
/// whether `members[i]` ignores the sender.
pub fn notification_targets(members: &Vec<String>, ignoring: &Vec<bool>, sender: &str, member_target: Option<String>, target_active_local: bool) -> (r: Vec<String>)
    requires
        ignoring.len() == members.len(),
    ensures
        texts(r@) == push_targets_of(texts(members@), ignoring@, sender@) + match member_target {
            Some(t) if target_active_local => seq![t@],
            _ => Seq::<Seq<char>>::empty(),
        },
{
    let ghost all = texts(members@);
    let me = sender.to_owned();
    let mut r: Vec<String> = Vec::new();
    let mut i: usize = 0;
    while i < members.len()
        invariant
            i <= members.len(),
            ignoring.len() == members.len(),
            all == texts(members@),
            me@ == sender@,
            texts(r@) == push_targets_of(all.take(i as int), ignoring@.take(i as int), sender@),
        decreases members.len() - i,
    {
        proof {
            assert(all.take(i + 1).drop_last() == all.take(i as int));
            assert(ignoring@.take(i + 1).drop_last() == ignoring@.take(i as int));
            assert(all.take(i + 1).last() == members@[i as int]@);
        }
        if members[i] != me && !ignoring[i] {
            let ghost before = texts(r@);
            r.push(members[i].clone());
            proof {
                assert(texts(r@) == before.push(members@[i as int]@));
            }
        }
        i += 1;
    }
    proof {
        assert(all.take(i as int) == all);
        assert(ignoring@.take(i as int) == ignoring@);
    }
    let ghost targets = texts(r@);
    match member_target {
        Some(t) => {
            if target_active_local {
                let ghost tv = t@;
                r.push(t);
                proof {
                    assert(texts(r@) == targets.push(tv));
                    assert(targets.push(tv) == targets + seq![tv]);
                }
            } else {
                proof {
                    assert(targets + Seq::<Seq<char>>::empty() == targets);
                }
            }
        },
        None => {
            proof {
                assert(targets + Seq::<Seq<char>>::empty() == targets);
            }
        },
    }
    r
}

/// The users among `targets` whose flag in `flags` is set, in order.
pub open spec fn flagged(targets: Seq<Seq<char>>, flags: Seq<bool>) -> Seq<Seq<char>>
    decreases targets.len(),
{
    if targets.len() == 0 {
        Seq::empty()
    } else {
        let rest = flagged(targets.drop_last(), flags.drop_last());
        if flags.last() {
            rest.push(targets.last())
        } else {
            rest
        }
    }
}

/// The users an event notifies and the users it highlights, from whether any
/// of the push actions for each target notifies and whether any highlights.
pub fn tally_notifications(targets: &Vec<String>, notify: &Vec<bool>, highlight: &Vec<bool>) -> (r: (Vec<String>, Vec<String>))
    requires
        notify.len() == targets.len(),
        highlight.len() == targets.len(),
    ensures
        texts(r.0@) == flagged(texts(targets@), notify@),
        texts(r.1@) == flagged(texts(targets@), highlight@),
{
    let ghost all = texts(targets@);
    let mut notifies: Vec<String> = Vec::new();
    let mut highlights: Vec<String> = Vec::new();
    let mut i: usize = 0;
    while i < targets.len()
        invariant
            i <= targets.len(),
            notify.len() == targets.len(),
            highlight.len() == targets.len(),
            all == texts(targets@),
            texts(notifies@) == flagged(all.take(i as int), notify@.take(i as int)),
            texts(highlights@) == flagged(all.take(i as int), highlight@.take(i as int)),
        decreases targets.len() - i,
    {
        proof {
            assert(all.take(i + 1).drop_last() == all.take(i as int));
            assert(notify@.take(i + 1).drop_last() == notify@.take(i as int));
            assert(highlight@.take(i + 1).drop_last() == highlight@.take(i as int));
            assert(all.take(i + 1).last() == targets@[i as int]@);
        }
        if notify[i] {
            let ghost before = texts(notifies@);
            notifies.push(targets[i].clone());
            proof {
                assert(texts(notifies@) == before.push(targets@[i as int]@));
            }
        }
        if highlight[i] {
            let ghost before = texts(highlights@);
            highlights.push(targets[i].clone());
            proof {
                assert(texts(highlights@) == before.push(targets@[i as int]@));
            }
        }
        i += 1;
    }
    proof {
        assert(all.take(i as int) == all);
        assert(notify@.take(i as int) == notify@);
        assert(highlight@.take(i as int) == highlight@);
    }
    (notifies, highlights)
}

/// The kinds of timeline event that set something off when appended.
#[derive(Debug, Clone, Copy, PartialEq, Eq, Structural)]
pub enum EventKind {
    /// `m.room.redaction`.
    Redaction,
    /// `m.space.child`.
    SpaceChild,
    /// `m.room.member`.
    Member,
    /// `m.room.message`.
    Message,
    /// Any other.
    Other,
}

/// The kind of a timeline event's type.
pub fn event_kind(kind: &str) -> (r: EventKind)
    ensures
        r == if kind@ == "m.room.redaction"@ {
            EventKind::Redaction
        } else if kind@ == "m.space.child"@ {
            EventKind::SpaceChild
        } else if kind@ == "m.room.member"@ {
            EventKind::Member
        } else if kind@ == "m.room.message"@ {
            EventKind::Message
        } else {
            EventKind::Other
        },
{
    let k = kind.to_owned();
    if k == "m.room.redaction".to_owned() {
        EventKind::Redaction
    } else if k == "m.space.child".to_owned() {
        EventKind::SpaceChild
    } else if k == "m.room.member".to_owned() {
        EventKind::Member
    } else if k == "m.room.message".to_owned() {
        EventKind::Message
    } else {
        EventKind::Other
    }
}

/// What an appended event sets off.
#[derive(Debug, Clone, Copy, PartialEq, Eq, Structural)]
pub enum Aftermath {
    /// A redaction is applied, where its sender may redact.
    Redact,
    /// The room's cached space summaries are forgotten.
    ForgetSpaceSummaries,
    /// The membership it sets is recorded.
    RecordMembership,
    /// The message is indexed, and run where it is an admin command.
    IndexMessage,
    /// Nothing.
    Nothing,
}

/// What an appended event sets off, by its kind.
pub fn act_on_kind(kind: EventKind) -> (r: Aftermath)
    ensures
        r == match kind {
            EventKind::Redaction => Aftermath::Redact,
            EventKind::SpaceChild => Aftermath::ForgetSpaceSummaries,
            EventKind::Member => Aftermath::RecordMembership,
            EventKind::Message => Aftermath::IndexMessage,
            EventKind::Other => Aftermath::Nothing,
        },
{
    match kind {
        EventKind::Redaction => Aftermath::Redact,
        EventKind::SpaceChild => Aftermath::ForgetSpaceSummaries,
        EventKind::Member => Aftermath::RecordMembership,
        EventKind::Message => Aftermath::IndexMessage,
        EventKind::Other => Aftermath::Nothing,
    }
}

/// The event a redaction redacts: named at the top level of the event in
/// room versions 1 to 10, and in its content from version 11 on and in any
/// version this server does not know.
pub fn redacted_event(room_version: &str, top_level: Option<String>, in_content: Option<String>) -> (r: Option<String>)
    ensures
        r == if known_room_version(room_version@) matches Some(n) && n <= 10 { top_level } else { in_content },
{
    match crate::room_version::room_version_number(room_version) {
        Some(n) => {
            if n <= 10 {
                top_level
            } else {
                in_content
            }
        },
        None => in_content,
    }
}

/// The event a message relates to: the one its relation names, else the one
/// it replies to.
pub fn related_event(relates_to: Option<String>, in_reply_to: Option<String>) -> (r: Option<String>)
    ensures
        r == match relates_to {
            Some(e) => Some(e),
            None => in_reply_to,
        },
{
    match relates_to {
        Some(e) => Some(e),
        None => in_reply_to,
    }
}

/// Whether an appservice is told of an event: it is party to the room, the
/// event is its own user's membership, the room or a user involved lies in
/// its namespaces, or one of the room's aliases does.
pub fn appservice_wants(in_room: bool, own_membership: bool, room_matches: bool, users_match: bool, alias_matches: bool) -> (r: bool)
    ensures
        r == (in_room || own_membership || room_matches || users_match || alias_matches),
{
    if in_room {
        return true;
    }
    if own_membership {
        return true;
    }
    if room_matches || users_match {
        return true;
    }
    alias_matches
}

/// Whether an event involves a user in an appservice's namespace: its sender
/// does, or, for a membership event, the user whose membership it is.
pub fn matches_users(sender_matches: bool, is_member_event: bool, state_key_matches: bool) -> (r: bool)
    ensures
        r == (sender_matches || (is_member_event && state_key_matches)),
{
    sender_matches || (is_member_event && state_key_matches)
}


/// The state event that a new state event replaces: what the room's state
/// held at the same type and key before it.
#[derive(Debug)]
pub struct PrevState {
    /// Its content.
    pub content: JsonObject,
    /// Who sent it.
    pub sender: String,
    /// Its id.
    pub event_id: String,
}

/// Why a state event's `unsigned` section could not be filled in.
#[derive(Debug, Clone, Copy, PartialEq, Eq, Structural)]
pub enum PrevContentError {
    /// The event has an `unsigned` section that is not an object.
    InvalidUnsigned,
}

/// The `unsigned` section an event starts with: its own where it has an
/// object there, else an empty one.
pub open spec fn unsigned_of(event: Map<Seq<char>, JsonValue>) -> Map<Seq<char>, JsonValue> {
    if event.dom().contains("unsigned"@) && event["unsigned"@] is Object {
        event["unsigned"@]->Object_0@
    } else {
        Map::empty()
    }
}

/// The `unsigned` section of a state event once what it replaces is known:
/// the replaced event's content, sender and id.
pub open spec fn unsigned_with_prev(unsigned: Map<Seq<char>, JsonValue>, prev: Option<PrevState>) -> Map<Seq<char>, JsonValue> {
    match prev {
        Some(p) => unsigned
            .insert("prev_content"@, JsonValue::Object(p.content))
            .insert("prev_sender"@, JsonValue::Str(p.sender))
            .insert("replaces_state"@, JsonValue::Str(p.event_id)),
        None => unsigned,
    }
}

/// Fills in the `unsigned` section of an event about to be appended: a state
/// event gets one, made an object if it had none, and learns what it replaces
/// where the room's state held something at its type and key. Other events
/// are left as they are; an `unsigned` that is not an object is refused.
pub fn add_prev_content(pdu_json: &mut JsonObject, is_state: bool, prev: Option<PrevState>) -> (r: Result<(), PrevContentError>)
    ensures
        !is_state ==> r is Ok && final(pdu_json)@ == old(pdu_json)@,
        is_state && old(pdu_json)@.dom().contains("unsigned"@) && !(old(pdu_json)@["unsigned"@] is Object) ==>
            r == Err::<(), PrevContentError>(PrevContentError::InvalidUnsigned) && final(pdu_json)@ == old(pdu_json)@,
        is_state && !(old(pdu_json)@.dom().contains("unsigned"@) && !(old(pdu_json)@["unsigned"@] is Object)) ==> {
            &&& r is Ok
            &&& final(pdu_json)@.remove("unsigned"@) == old(pdu_json)@.remove("unsigned"@)
            &&& final(pdu_json)@.dom().contains("unsigned"@)
            &&& final(pdu_json)@["unsigned"@] matches JsonValue::Object(u) && u@ == unsigned_with_prev(unsigned_of(old(pdu_json)@), prev)
        },
{
    if !is_state {
        return Ok(());
    }
    let ghost start = pdu_json@;
    let mut unsigned = match pdu_json.remove("unsigned") {
        None => JsonObject::new(),
        Some(JsonValue::Object(object)) => object,
        Some(other) => {
            pdu_json.insert("unsigned".to_owned(), other);
            proof {
                assert(pdu_json@ =~= start);
            }
            return Err(PrevContentError::InvalidUnsigned);
        },
    };
    match prev {
        Some(p) => {
            unsigned.insert("prev_content".to_owned(), JsonValue::Object(p.content));
            unsigned.insert("prev_sender".to_owned(), JsonValue::Str(p.sender));
            unsigned.insert("replaces_state".to_owned(), JsonValue::Str(p.event_id));
        },
        None => {},
    }
    pdu_json.insert("unsigned".to_owned(), JsonValue::Object(unsigned));
    proof {
        assert(pdu_json@.remove("unsigned"@) =~= start.remove("unsigned"@));
    }
    Ok(())
}

} // verus!
