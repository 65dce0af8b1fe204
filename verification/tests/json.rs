use phantom_service::event_handler::{auth_event_ids, mark_bad, mark_good, BadEvent};
use phantom_service::json_object::{json_text_of, JsonObject, JsonValue, TextMap};
use phantom_service::membership::{
    complete_member_event, merge_member_content, unban_content, MemberEventError, UnbanError,
    MAX_CANONICAL_INT,
};
use phantom_service::read_receipt::{pack_receipts, private_read_receipt, receipt_for_sync};
use phantom_service::threads::{
    bundle_thread, bundled_thread, stored_thread_count, thread_count_for_reply, MAX_SAFE_UINT,
};
use phantom_service::timeline::{add_prev_content, PrevContentError, PrevState};

fn text(v: &str) -> JsonValue {
    JsonValue::Str(v.to_string())
}

fn object(entries: Vec<(&str, JsonValue)>) -> JsonObject {
    let mut o = JsonObject::new();
    for (k, v) in entries {
        o.insert(k.to_string(), v);
    }
    o
}

fn text_at(o: &JsonObject, key: &str) -> Option<String> {
    match o.get(key) {
        Some(JsonValue::Str(s)) => Some(s.clone()),
        _ => None,
    }
}

fn object_at<'a>(o: &'a JsonObject, key: &str) -> Option<&'a JsonObject> {
    match o.get(key) {
        Some(JsonValue::Object(inner)) => Some(inner),
        _ => None,
    }
}

#[test]
fn an_object_keeps_one_value_per_key() {
    let mut o = object(vec![("a", text("1")), ("b", text("2"))]);
    o.insert("a".to_string(), text("3"));
    assert_eq!(text_at(&o, "a"), Some("3".to_string()));
    assert_eq!(text_at(&o, "b"), Some("2".to_string()));
    assert!(matches!(o.remove("a"), Some(JsonValue::Str(s)) if s == "3"));
    assert!(!o.contains_key("a"));
    assert!(o.remove("a").is_none());

    let mut later = object(vec![("a", text("x")), ("b", text("y"))]);
    later.extend(object(vec![("b", text("z"))]));
    assert_eq!(text_at(&later, "b"), Some("z".to_string()));

    let mut own = object(vec![("b", text("mine"))]);
    own.fill_from(object(vec![("b", text("theirs")), ("c", text("new"))]));
    assert_eq!(text_at(&own, "b"), Some("mine".to_string()));
    assert_eq!(text_at(&own, "c"), Some("new".to_string()));
}

#[test]
fn extra_member_content_never_overrides_the_servers_own() {
    let content = JsonValue::Object(object(vec![
        ("membership", text("join")),
        ("displayname", text("Alice")),
    ]));
    let extra = object(vec![
        ("membership", text("leave")),
        ("org.example.flair", text("gold")),
    ]);
    let merged = match merge_member_content(content, Some(extra)) {
        JsonValue::Object(o) => o,
        other => panic!("not an object: {other:?}"),
    };
    assert_eq!(text_at(&merged, "membership"), Some("join".to_string()));
    assert_eq!(text_at(&merged, "displayname"), Some("Alice".to_string()));
    assert_eq!(text_at(&merged, "org.example.flair"), Some("gold".to_string()));

    let untouched = merge_member_content(text("not an object"), Some(object(vec![("a", text("b"))])));
    assert!(matches!(untouched, JsonValue::Str(s) if s == "not an object"));
}

#[test]
fn a_member_event_is_completed_for_this_server() {
    let mut event = object(vec![("depth", JsonValue::Integer(5)), ("sender", text("@wrong:x"))]);
    let content = JsonValue::Object(object(vec![("membership", text("join"))]));
    let r = complete_member_event(&mut event, "!room:x", "@alice:here", "here", 1_700_000_000_000, content);
    assert_eq!(r, Ok(()));
    assert_eq!(text_at(&event, "origin"), Some("here".to_string()));
    assert_eq!(text_at(&event, "room_id"), Some("!room:x".to_string()));
    assert_eq!(text_at(&event, "sender"), Some("@alice:here".to_string()));
    assert_eq!(text_at(&event, "state_key"), Some("@alice:here".to_string()));
    assert_eq!(text_at(&event, "type"), Some("m.room.member".to_string()));
    assert!(matches!(event.get("origin_server_ts"), Some(JsonValue::Integer(1_700_000_000_000))));
    assert!(matches!(event.get("depth"), Some(JsonValue::Integer(5))));
    assert_eq!(text_at(object_at(&event, "content").unwrap(), "membership"), Some("join".to_string()));
}

#[test]
fn a_clock_past_canonical_json_fails_the_member_event() {
    let mut event = JsonObject::new();
    let r = complete_member_event(&mut event, "!room:x", "@a:here", "here", MAX_CANONICAL_INT + 1, JsonValue::Null);
    assert_eq!(r, Err(MemberEventError::TimestampOutOfRange));
    assert!(event.contains_key("content"));
    assert!(!event.contains_key("origin_server_ts"));

    let mut untouched = JsonObject::new();
    let r = complete_member_event(&mut untouched, "!room:x", "@a:here", "here", u64::MAX, JsonValue::Null);
    assert_eq!(r, Err(MemberEventError::ClockOutOfRange));
    assert!(!untouched.contains_key("content"));

    let mut at_limit = JsonObject::new();
    assert_eq!(complete_member_event(&mut at_limit, "!r:x", "@a:x", "x", MAX_CANONICAL_INT, JsonValue::Null), Ok(()));
}

#[test]
fn a_state_event_learns_what_it_replaces() {
    let mut pdu = object(vec![("type", text("m.room.topic"))]);
    let prev = PrevState {
        content: object(vec![("topic", text("old"))]),
        sender: "@bob:x".to_string(),
        event_id: "$prev".to_string(),
    };
    assert_eq!(add_prev_content(&mut pdu, true, Some(prev)), Ok(()));
    let unsigned = object_at(&pdu, "unsigned").expect("unsigned");
    assert_eq!(text_at(unsigned, "prev_sender"), Some("@bob:x".to_string()));
    assert_eq!(text_at(unsigned, "replaces_state"), Some("$prev".to_string()));
    assert_eq!(text_at(object_at(unsigned, "prev_content").unwrap(), "topic"), Some("old".to_string()));

    let mut first = JsonObject::new();
    assert_eq!(add_prev_content(&mut first, true, None), Ok(()));
    assert!(object_at(&first, "unsigned").is_some());

    let mut message = JsonObject::new();
    assert_eq!(add_prev_content(&mut message, false, None), Ok(()));
    assert!(!message.contains_key("unsigned"));

    let mut broken = object(vec![("unsigned", text("oops"))]);
    assert_eq!(add_prev_content(&mut broken, true, None), Err(PrevContentError::InvalidUnsigned));
    assert_eq!(text_at(&broken, "unsigned"), Some("oops".to_string()));
}

#[test]
fn a_thread_summary_is_bundled_under_its_relations() {
    let mut root = object(vec![("type", text("m.room.message"))]);
    assert!(bundled_thread(&root).is_none());
    assert!(bundle_thread(&mut root, text("summary")));
    assert!(matches!(bundled_thread(&root), Some(JsonValue::Str(s)) if s == "summary"));

    let unsigned = object(vec![
        ("age", JsonValue::Integer(3)),
        ("m.relations", text("not an object")),
    ]);
    let mut odd = object(vec![("unsigned", JsonValue::Object(unsigned))]);
    assert!(bundle_thread(&mut odd, text("s2")));
    let kept = object_at(&odd, "unsigned").unwrap();
    assert!(matches!(kept.get("age"), Some(JsonValue::Integer(3))));
    assert_eq!(text_at(object_at(kept, "m.relations").unwrap(), "m.thread"), Some("s2".to_string()));

    let mut unusable = object(vec![("unsigned", JsonValue::Bool(true))]);
    assert!(!bundle_thread(&mut unusable, text("s3")));
    assert!(matches!(unusable.get("unsigned"), Some(JsonValue::Bool(true))));
}

#[test]
fn later_receipts_win_and_unreadable_ones_are_skipped() {
    let packed = pack_receipts(vec![
        Some(object(vec![("$a", text("first")), ("$b", text("b"))])),
        None,
        Some(object(vec![("$a", text("second"))])),
    ]);
    assert_eq!(text_at(&packed, "$a"), Some("second".to_string()));
    assert_eq!(text_at(&packed, "$b"), Some("b".to_string()));
    assert!(pack_receipts(vec![None]).get("$a").is_none());
}

#[test]
fn a_private_read_receipt_names_the_event_and_the_user() {
    let content = private_read_receipt("$ev".to_string(), "@alice:x".to_string());
    let kinds = object_at(&content, "$ev").unwrap();
    let users = object_at(kinds, "m.read.private").unwrap();
    assert!(object_at(users, "@alice:x").is_some());
    assert!(content.get("$other").is_none());

    let stored = object(vec![("room_id", text("!r:x")), ("type", text("m.receipt"))]);
    let sent = receipt_for_sync(stored);
    assert!(!sent.contains_key("room_id"));
    assert_eq!(text_at(&sent, "type"), Some("m.receipt".to_string()));
}

#[test]
fn failed_fetches_are_counted_until_one_succeeds() {
    let mut bad: TextMap<BadEvent> = TextMap::new();
    mark_bad(&mut bad, "$e", 100);
    assert_eq!(bad.get("$e"), Some(&(100, 1)));
    mark_bad(&mut bad, "$e", 160);
    assert_eq!(bad.get("$e"), Some(&(160, 2)));
    bad.insert("$f".to_string(), (5, u32::MAX));
    mark_bad(&mut bad, "$f", 7);
    assert_eq!(bad.get("$f"), Some(&(7, u32::MAX)));
    mark_good(&mut bad, "$e");
    assert_eq!(bad.get("$e"), None);
}

#[test]
fn only_a_banned_user_is_unbanned() {
    let ban = object(vec![
        ("membership", text("ban")),
        ("reason", text("spam")),
        ("displayname", text("Mallory")),
        ("is_direct", JsonValue::Bool(true)),
    ]);
    let lifted = unban_content(Some(ban), Some("appeal".to_string())).expect("banned");
    assert_eq!(text_at(&lifted, "membership"), Some("leave".to_string()));
    assert_eq!(text_at(&lifted, "reason"), Some("appeal".to_string()));
    assert_eq!(text_at(&lifted, "displayname"), Some("Mallory".to_string()));
    assert!(!lifted.contains_key("is_direct"));

    let quiet = unban_content(Some(object(vec![("membership", text("ban")), ("reason", text("x"))])), None).unwrap();
    assert!(!quiet.contains_key("reason"));

    assert_eq!(unban_content(None, None).err(), Some(UnbanError::NotBanned));
    assert_eq!(
        unban_content(Some(object(vec![("membership", text("join"))])), None).err(),
        Some(UnbanError::NotBanned)
    );
}

#[test]
fn a_pdus_auth_events_are_the_event_ids_it_lists() {
    let pdu = object(vec![(
        "auth_events",
        JsonValue::Array(vec![
            text("$create"),
            JsonValue::Integer(3),
            text("not an id"),
            text("$power:example.org"),
            text("$bad:"),
        ]),
    )]);
    assert_eq!(auth_event_ids(&pdu), vec!["$create".to_string(), "$power:example.org".to_string()]);
    assert!(auth_event_ids(&object(vec![("auth_events", text("$x"))])).is_empty());
    assert!(auth_event_ids(&JsonObject::new()).is_empty());
}

#[test]
fn a_value_is_written_as_json_text() {
    let v = JsonValue::Object(object(vec![
        ("a", text("x\"\\\n\u{1f}é")),
        (
            "b",
            JsonValue::Array(vec![
                JsonValue::Null,
                JsonValue::Bool(true),
                JsonValue::Bool(false),
                JsonValue::Integer(-12),
                JsonValue::Integer(i64::MIN),
                JsonValue::Integer(0),
            ]),
        ),
        ("c", JsonValue::Object(JsonObject::new())),
        ("d", JsonValue::Array(Vec::new())),
    ]));
    assert_eq!(
        json_text_of(&v),
        "{\"a\":\"x\\\"\\\\\\u000a\\u001fé\",\"b\":[null,true,false,-12,-9223372036854775808,0],\"c\":{},\"d\":[]}"
    );
}

fn summary(count: JsonValue, participated: Option<bool>) -> JsonValue {
    let mut entries = vec![
        ("latest_event", JsonValue::Object(object(vec![("type", text("m.room.message"))]))),
        ("count", count),
    ];
    if let Some(p) = participated {
        entries.push(("current_user_participated", JsonValue::Bool(p)));
    }
    JsonValue::Object(object(entries))
}

#[test]
fn a_stored_thread_summary_gives_its_count() {
    assert_eq!(stored_thread_count(&summary(JsonValue::Integer(4), Some(true))), Some(4));
    assert_eq!(stored_thread_count(&summary(JsonValue::Integer(4), None)), None);
    assert_eq!(stored_thread_count(&summary(JsonValue::Integer(-1), Some(false))), None);
    assert_eq!(stored_thread_count(&summary(text("4"), Some(false))), None);
    assert_eq!(stored_thread_count(&text("summary")), None);
}

#[test]
fn a_reply_counts_one_more_than_the_stored_summary() {
    let mut root = object(vec![("type", text("m.room.message"))]);
    assert_eq!(thread_count_for_reply(&root), 1);
    assert!(bundle_thread(&mut root, summary(JsonValue::Integer(4), Some(true))));
    assert_eq!(thread_count_for_reply(&root), 5);

    let mut full = object(vec![]);
    assert!(bundle_thread(&mut full, summary(JsonValue::Integer(MAX_SAFE_UINT as i64), Some(true))));
    assert_eq!(thread_count_for_reply(&full), MAX_SAFE_UINT);

    let mut unreadable = object(vec![]);
    assert!(bundle_thread(&mut unreadable, summary(JsonValue::Integer(4), None)));
    assert_eq!(thread_count_for_reply(&unreadable), 1);
}
