use phantom_service::auto_accept::{
    accepts_invite, acceptable, after_attempt, retry_delay, retry_delay_seconds, AcceptDecision,
    AttemptOutcome, AutoAcceptConfig, ATTEMPTS,
};
use phantom_service::membership::{
    after_knock_failure, after_local_join, after_local_knock, authorizing_user, invite_failure,
    invite_origin, is_local_only, knock_route, knock_state_entries, outgoing_pdu,
    remote_join_authorizer, restriction_rooms, sender_servers, summary_cells, AllowRule, Fallback,
    InviteErrorKind, InviteFailure, JoinRule, KnockRoute, MakeJoinSearch, SearchStep,
};
use phantom_service::json_object::{JsonObject, JsonValue};
use phantom_service::room_version::{ensure_room_version_supports_knock, KnockError};
use phantom_service::stripped_state::RawStrippedState;
use std::time::Duration;

#[test]
fn the_first_attempt_is_immediate_and_retries_double() {
    let delays: Vec<Duration> = (0..ATTEMPTS).map(retry_delay).collect();

    assert_eq!(delays, [0, 1, 2, 4, 8].map(Duration::from_secs));
}

#[test]
fn the_last_possible_retry_waits_two_to_the_sixty_third() {
    assert_eq!(retry_delay_seconds(64), 1u64 << 63);
    assert_eq!(retry_delay_seconds(1), 1);
}

fn value_from(v: serde_json::Value) -> JsonValue {
    match v {
        serde_json::Value::Null => JsonValue::Null,
        serde_json::Value::Bool(b) => JsonValue::Bool(b),
        serde_json::Value::Number(n) => JsonValue::Integer(n.as_i64().expect("an integer")),
        serde_json::Value::String(s) => JsonValue::Str(s),
        serde_json::Value::Array(items) => JsonValue::Array(items.into_iter().map(value_from).collect()),
        serde_json::Value::Object(map) => {
            let mut object = JsonObject::new();
            for (k, v) in map {
                object.insert(k, value_from(v));
            }
            JsonValue::Object(object)
        },
    }
}

fn object_from(text: &str) -> JsonObject {
    match value_from(serde_json::from_str(text).expect("json")) {
        JsonValue::Object(object) => object,
        other => panic!("not an object: {other:?}"),
    }
}

#[test]
fn a_modern_room_sends_no_event_id() {
    let sent = outgoing_pdu(object_from(r#"{"event_id":"$abc","type":"m.room.member"}"#), "11");

    assert!(sent.get("event_id").is_none());
}

#[test]
fn a_v1_room_keeps_its_event_id() {
    let sent = outgoing_pdu(object_from(r#"{"event_id":"$abc:example.org","type":"m.room.member"}"#), "1");

    assert!(matches!(sent.get("event_id"), Some(JsonValue::Str(id)) if id == "$abc:example.org"));
}

#[test]
fn the_transaction_id_never_leaves() {
    let sent = outgoing_pdu(
        object_from(r#"{"type":"m.room.member","unsigned":{"transaction_id":"secret","age":1}}"#),
        "11",
    );

    let Some(JsonValue::Object(unsigned)) = sent.get("unsigned") else { panic!("no unsigned") };
    assert!(unsigned.get("transaction_id").is_none());
    assert!(matches!(unsigned.get("age"), Some(JsonValue::Integer(1))));
}

#[test]
fn sender_servers_skip_what_does_not_parse() {
    let state = vec![
        r#"{"type":"m.room.name","state_key":"","sender":"@a:one.test","content":{}}"#.to_owned(),
        r#"{"type":"m.room.topic","state_key":"","sender":"garbage","content":{}}"#.to_owned(),
        r#"{"type":"m.room.create","state_key":"","content":{}}"#.to_owned(),
    ];

    assert_eq!(sender_servers(&state), ["one.test"]);
}

#[test]
fn invites_are_accepted_as_configured() {
    let on = AutoAcceptConfig {
        auto_accept_invites: true,
        direct_only: true,
        local_only: true,
    };

    assert!(accepts_invite(on, true, true, true));
    assert!(!accepts_invite(on, false, true, true));
    assert!(!accepts_invite(on, true, true, false));
    assert!(!accepts_invite(on, true, false, true));
    assert!(!accepts_invite(
        AutoAcceptConfig {
            auto_accept_invites: false,
            direct_only: false,
            local_only: false
        },
        true,
        true,
        true
    ));
    assert!(acceptable(true, true, false));
    assert!(!acceptable(true, true, true));
}

#[test]
fn failed_attempts_retry_until_the_last() {
    assert_eq!(after_attempt(0, AttemptOutcome::Failed), AcceptDecision::Retry(1));
    assert_eq!(after_attempt(ATTEMPTS - 1, AttemptOutcome::Failed), AcceptDecision::Stop(false));
    assert_eq!(after_attempt(2, AttemptOutcome::Joined), AcceptDecision::Stop(true));
    assert_eq!(after_attempt(2, AttemptOutcome::NotAcceptable), AcceptDecision::Stop(false));
}

#[test]
fn only_this_server_is_local_only() {
    assert!(is_local_only(&Vec::new(), "me.test"));
    assert!(is_local_only(&vec!["me.test".to_owned()], "me.test"));
    assert!(!is_local_only(&vec!["other.test".to_owned()], "me.test"));
    assert!(!is_local_only(&vec!["me.test".to_owned(), "other.test".to_owned()], "me.test"));
}

#[test]
fn restricted_rules_name_their_rooms() {
    let rules = vec![
        AllowRule::RoomMembership("!a:x".to_owned()),
        AllowRule::Other,
        AllowRule::RoomMembership("!b:x".to_owned()),
    ];

    assert_eq!(restriction_rooms(&JoinRule::Restricted(rules.clone())), ["!a:x", "!b:x"]);
    assert_eq!(restriction_rooms(&JoinRule::KnockRestricted(rules)), ["!a:x", "!b:x"]);
    assert!(restriction_rooms(&JoinRule::Public).is_empty());
}

#[test]
fn a_failed_local_join_falls_back_unless_nothing_can_help() {
    assert_eq!(after_local_join(true, true, true), Fallback::Done);
    assert_eq!(after_local_join(false, true, true), Fallback::Fail);
    assert_eq!(after_local_join(false, false, true), Fallback::TryFederation);
    assert_eq!(after_local_join(false, true, false), Fallback::TryFederation);
    assert_eq!(after_local_knock(false, true), Fallback::Fail);
    assert_eq!(after_local_knock(false, false), Fallback::TryFederation);
}

#[test]
fn a_knock_is_refused_or_routed() {
    assert_eq!(knock_route(true, false, false, false, false, false), KnockRoute::AlreadyInvited);
    assert_eq!(knock_route(false, true, false, false, false, false), KnockRoute::AlreadyJoined);
    assert_eq!(knock_route(false, false, true, true, false, false), KnockRoute::AlreadyKnocked);
    assert_eq!(knock_route(false, false, false, true, false, false), KnockRoute::Remote);
    assert_eq!(knock_route(false, false, false, false, true, false), KnockRoute::Banned);
    assert_eq!(knock_route(false, false, true, false, false, false), KnockRoute::Local);
    assert_eq!(knock_route(false, false, false, false, false, true), KnockRoute::Local);
}

#[test]
fn the_make_join_search_gives_up() {
    let mut search = MakeJoinSearch::new(3);

    assert_eq!(search.after_failure(false), SearchStep::Continue);
    assert_eq!(search.after_failure(false), SearchStep::Continue);
    assert_eq!(search.after_failure(false), SearchStep::NoServer);

    let mut search = MakeJoinSearch::new(100);
    for _ in 0..15 {
        assert_eq!(search.after_failure(true), SearchStep::Continue);
    }
    assert_eq!(search.after_failure(true), SearchStep::Unsupported);

    assert_eq!(after_knock_failure(40), SearchStep::Continue);
    assert_eq!(after_knock_failure(41), SearchStep::NoServer);
}

#[test]
fn invite_failures_are_reported_by_kind() {
    assert_eq!(invite_failure(InviteErrorKind::IncompatibleRoomVersion), InviteFailure::UnsupportedRoomVersion);
    assert_eq!(invite_failure(InviteErrorKind::UnsupportedRoomVersion), InviteFailure::UnsupportedRoomVersion);
    assert_eq!(invite_failure(InviteErrorKind::MissingParam), InviteFailure::CreateNotValidated);
    assert_eq!(invite_failure(InviteErrorKind::Other), InviteFailure::Remote);
}

#[test]
fn an_invites_origin_falls_back_to_the_invitees_server() {
    assert_eq!(invite_origin(r#"{"origin":"remote.test"}"#, "invitee.test"), "remote.test");
    assert_eq!(invite_origin(r#"{"origin":"not a server name"}"#, "invitee.test"), "invitee.test");
    assert_eq!(invite_origin(r#"{}"#, "invitee.test"), "invitee.test");
}

#[test]
fn an_invite_carries_the_summary_cells() {
    let cells = summary_cells("@inviter:x");

    assert_eq!(cells.len(), 8);
    assert_eq!(cells[0], ("m.room.create".to_owned(), String::new()));
    assert_eq!(cells[5], ("m.room.member".to_owned(), "@inviter:x".to_owned()));
    assert_eq!(cells[7], ("m.room.topic".to_owned(), String::new()));
}

#[test]
fn a_knock_keeps_its_state_but_a_dropped_create() {
    let state = vec![
        RawStrippedState::Pdu(r#"{"type":"m.room.create","state_key":""}"#.to_owned()),
        RawStrippedState::Stripped(r#"{"type":"m.room.name","state_key":""}"#.to_owned()),
        RawStrippedState::Pdu(r#"{"type":"m.room.topic"}"#.to_owned()),
        RawStrippedState::Unknown,
    ];

    assert_eq!(knock_state_entries(&state, true), [1]);
    assert_eq!(knock_state_entries(&state, false), [0, 1]);
}

#[test]
fn knocking_needs_a_room_version_that_has_it() {
    assert_eq!(ensure_room_version_supports_knock("6"), Err(KnockError::Unsupported));
    assert_eq!(ensure_room_version_supports_knock("7"), Ok(()));
    assert_eq!(ensure_room_version_supports_knock("unknown"), Err(KnockError::Unsupported));
}

#[test]
fn the_first_local_user_who_may_invite_authorises_a_restricted_join() {
    let users = vec!["@a:here".to_string(), "@b:here".to_string(), "@c:here".to_string()];
    assert_eq!(authorizing_user(true, &users, &vec![false, true, true]), Some("@b:here".to_string()));
    assert_eq!(authorizing_user(true, &users, &vec![false, false, false]), None);
    assert_eq!(authorizing_user(false, &users, &vec![true, true, true]), None);
}

#[test]
fn a_remote_join_names_its_authoriser_only_where_the_version_allows() {
    let stub = r#"{"type":"m.room.member","content":{"membership":"join","join_authorised_via_users_server":"@mod:remote"}}"#;
    assert_eq!(remote_join_authorizer(stub, "10"), Some("@mod:remote".to_string()));
    assert_eq!(remote_join_authorizer(stub, "7"), None);
    let bad = r#"{"content":{"join_authorised_via_users_server":"not a user"}}"#;
    assert_eq!(remote_join_authorizer(bad, "10"), None);
    assert_eq!(remote_join_authorizer(r#"{"content":{}}"#, "10"), None);
}
