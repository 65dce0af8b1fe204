use phantom_service::alias::{
    alias_source, appservice_checks, check_remove_alias, check_set_alias, user_can_remove_alias,
    AliasError, AliasSource,
};
use phantom_service::event_handler::{
    acl_check, admit_incoming, assemble_state, extremities_after, gap_step, predates_history,
    sorted_oldest_first,
    upgrade_decision, Admission, AuthGraphWalk, GapStep, GraphAction, IncomingError, ServerAcl,
    Upgrade,
};
use phantom_service::relations::{relation_to_record, unsigned_count, PduCount, RelationWalk};
use phantom_service::search::{make_prefix, make_tokenid, prefix_len, tokenize, SEP};
use phantom_service::state_accessor::{
    history_visibility_of, same_server, server_can_see_event, user_can_redact,
    user_can_see_event, user_can_see_state_events, HistoryVisibility, RedactError,
    power_level_context, CreateInfo, RedactedEvent, ServerCheck, StateCheck, UserCheck,
};
use phantom_service::timeline::{
    act_on_kind, appservice_wants, event_kind, matches_users, notification_targets,
    redacted_event, related_event, tally_notifications, Aftermath, EventKind,
};

fn strings(items: &[&str]) -> Vec<String> {
    items.iter().map(|s| s.to_string()).collect()
}

#[test]
fn history_visibility_defaults_to_shared() {
    assert_eq!(history_visibility_of(None), HistoryVisibility::Shared);
    assert_eq!(history_visibility_of(Some("joined")), HistoryVisibility::Joined);
    assert_eq!(history_visibility_of(Some("world_readable")), HistoryVisibility::WorldReadable);
    assert_eq!(history_visibility_of(Some("nonsense")), HistoryVisibility::Unknown);
}

#[test]
fn an_unknown_visibility_hides_the_event() {
    assert_eq!(user_can_see_event(true, HistoryVisibility::Unknown, true), UserCheck::Hidden);
    assert_eq!(user_can_see_event(false, HistoryVisibility::Unknown, false), UserCheck::Visible);
    assert_eq!(user_can_see_event(true, HistoryVisibility::Shared, false), UserCheck::Hidden);
    assert_eq!(user_can_see_event(true, HistoryVisibility::Shared, true), UserCheck::Visible);
    assert_eq!(user_can_see_event(true, HistoryVisibility::Invited, false), UserCheck::InvitedAtEvent);
    assert_eq!(server_can_see_event(true, HistoryVisibility::Unknown), ServerCheck::Hidden);
    assert_eq!(server_can_see_event(true, HistoryVisibility::Shared), ServerCheck::Visible);
    assert_eq!(server_can_see_event(true, HistoryVisibility::Joined), ServerCheck::AnyMemberJoinedAtEvent);
    assert_eq!(user_can_see_state_events(true, HistoryVisibility::Joined), StateCheck::Visible);
    assert_eq!(user_can_see_state_events(false, HistoryVisibility::Shared), StateCheck::Hidden);
    assert_eq!(user_can_see_state_events(false, HistoryVisibility::Invited), StateCheck::InvitedNow);
}

fn redacted(kind: &str, sender: &str) -> Option<RedactedEvent> {
    Some(RedactedEvent { kind: kind.to_owned(), sender: sender.to_owned() })
}

fn create(sender: &str, version: &str, additional: &[&str]) -> CreateInfo {
    CreateInfo {
        sender: sender.to_owned(),
        room_version: version.to_owned(),
        additional_creators: additional.iter().map(|s| s.to_string()).collect(),
    }
}

const MOD_POWER: &str = r#"{"users":{"@mod:x":50}}"#;

#[test]
fn create_and_acl_events_are_never_redacted() {
    let c = create("@a:x", "10", &[]);
    assert_eq!(user_can_redact(redacted("m.room.create", "@a:x"), "@a:x", false, Some(MOD_POWER), Some(&c)), Err(RedactError::CreateEvent));
    assert_eq!(user_can_redact(redacted("m.room.server_acl", "@a:x"), "@a:x", false, None, Some(&c)), Err(RedactError::ServerAcl));
}

#[test]
fn the_power_levels_are_read_in_the_rooms_context() {
    let c = create("@c:x", "11", &["@d:x"]);
    let (version, creators) = power_level_context(Some(&c));
    assert_eq!(version, "11");
    assert_eq!(creators, vec!["@c:x".to_string(), "@d:x".to_string()]);
    assert_eq!(power_level_context(Some(&create("@c:x", "not a version", &[]))).0, "1");
    assert_eq!(power_level_context(None), ("1".to_string(), Vec::new()));
}

#[test]
fn power_levels_decide_who_redacts_others() {
    let c = create("@c:x", "10", &[]);
    assert_eq!(user_can_redact(redacted("m.room.message", "@b:x"), "@mod:x", false, Some(MOD_POWER), Some(&c)), Ok(true));
    assert_eq!(user_can_redact(redacted("m.room.message", "@b:x"), "@c:x", false, Some("{}"), Some(&c)), Ok(false));
    let v12 = create("@c:x", "12", &[]);
    assert_eq!(user_can_redact(redacted("m.room.message", "@b:x"), "@c:x", false, Some("{}"), Some(&v12)), Ok(true));
}

#[test]
fn own_events_are_redacted_by_sender_or_by_server() {
    let c = create("@c:x", "10", &[]);
    let own = Some(MOD_POWER);

    assert_eq!(user_can_redact(redacted("m.room.message", "@a:x"), "@a:x", false, own, Some(&c)), Ok(true));
    assert_eq!(user_can_redact(redacted("m.room.message", "@b:x"), "@a:x", false, own, Some(&c)), Ok(false));
    assert_eq!(user_can_redact(redacted("m.room.message", "@b:x"), "@a:x", true, own, Some(&c)), Ok(true));
    assert_eq!(user_can_redact(redacted("m.room.message", "@b:y"), "@a:x", true, own, Some(&c)), Ok(false));
    let creator = create("@a:x", "10", &[]);
    assert_eq!(user_can_redact(None, "@a:x", false, None, Some(&creator)), Ok(true));
    assert_eq!(user_can_redact(redacted("m.room.message", "@b:x"), "@e:x", false, Some("garbage"), Some(&creator)), Ok(false));
    assert_eq!(user_can_redact(None, "@a:x", false, None, None), Err(RedactError::NoAuthority));
    assert!(same_server("@a:example.org", "@b:example.org"));
    assert!(!same_server("@a:example.org", "@b:other.org"));
}

#[test]
fn messages_split_into_lowercase_words() {
    assert_eq!(tokenize("Hello, World! hello"), ["hello", "world", "hello"]);
    assert_eq!(tokenize("  "), Vec::<String>::new());
    let long = "a".repeat(51);
    assert_eq!(tokenize(&format!("{long} ok")), ["ok"]);
    assert_eq!(tokenize(&"é".repeat(25)), ["é".repeat(25)]);
    assert!(tokenize(&"é".repeat(26)).is_empty());
}

#[test]
fn index_keys_start_with_the_room_and_word() {
    let prefix = make_prefix(1, "hi");

    assert_eq!(prefix, [0, 0, 0, 0, 0, 0, 0, 1, b'h', b'i', SEP]);
    assert_eq!(make_tokenid(1, "hi", &[9, 9]), [0, 0, 0, 0, 0, 0, 0, 1, b'h', b'i', SEP, 9, 9]);
    assert_eq!(prefix_len("hi"), 11);
}

#[test]
fn an_acl_lets_in_whom_it_allows() {
    let acl = ServerAcl {
        allow: strings(&["*.good.test"]),
        deny: strings(&["bad.good.test"]),
        allow_ip_literals: false,
    };

    assert_eq!(acl_check(false, Some(&acl), "a.good.test"), Ok(()));
    assert_eq!(acl_check(false, Some(&acl), "bad.good.test"), Err(IncomingError::DeniedByAcl));
    assert_eq!(acl_check(true, Some(&acl), "bad.good.test"), Ok(()));
    assert_eq!(acl_check(false, None, "anything.test"), Ok(()));
    let broken = ServerAcl { allow: Vec::new(), deny: Vec::new(), allow_ip_literals: true };
    assert_eq!(acl_check(false, Some(&broken), "anything.test"), Ok(()));
}

#[test]
fn incoming_events_pass_the_gates_in_order() {
    assert_eq!(admit_incoming(true, false, true, Ok(()), true), Admission::Known);
    assert_eq!(admit_incoming(false, false, true, Ok(()), true), Admission::Refused(IncomingError::UnknownRoom));
    assert_eq!(admit_incoming(false, true, true, Ok(()), true), Admission::Refused(IncomingError::Disabled));
    assert_eq!(
        admit_incoming(false, true, false, Err(IncomingError::DeniedByAcl), true),
        Admission::Refused(IncomingError::DeniedByAcl)
    );
    assert_eq!(admit_incoming(false, true, false, Ok(()), true), Admission::Refused(IncomingError::Forbidden));
    assert_eq!(admit_incoming(false, true, false, Ok(()), false), Admission::Handle);
    assert!(predates_history(true, 5, 10));
    assert!(!predates_history(false, 5, 10));
}

#[test]
fn an_outlier_is_appended_soft_failed_or_refused() {
    assert_eq!(upgrade_decision(false, false, false, true, true), Upgrade::Refused);
    assert_eq!(upgrade_decision(false, false, true, false, true), Upgrade::SoftFail);
    assert_eq!(upgrade_decision(false, false, true, true, true), Upgrade::ResolveAndAppend);
    assert_eq!(upgrade_decision(false, false, true, true, false), Upgrade::Append);
    assert_eq!(upgrade_decision(false, true, true, true, false), Upgrade::SoftFailedBefore);
    assert_eq!(upgrade_decision(true, true, true, true, false), Upgrade::Known);
}

#[test]
fn the_event_replaces_the_extremities_it_names() {
    let current = strings(&["$a", "$b", "$c"]);

    assert_eq!(
        extremities_after(&current, &vec![true, true, false], &strings(&["$a"]), "$new".to_owned()),
        ["$b", "$new"]
    );
}

#[test]
fn a_gap_is_filled_until_the_budget_is_spent() {
    assert_eq!(gap_step(true, 10, 0, false), GapStep::GiveUp);
    assert_eq!(gap_step(false, 1, 5, false), GapStep::Skip);
    assert_eq!(gap_step(false, 10, 5, true), GapStep::Skip);
    assert_eq!(gap_step(false, 10, 5, false), GapStep::Place);
}

#[test]
fn a_state_answer_with_clashes_or_without_create_is_no_state() {
    let ok = vec![(Some(1), "$create".to_owned()), (None, "$msg".to_owned()), (Some(2), "$name".to_owned()), (Some(2), "$name".to_owned())];
    let state = assemble_state(&ok, 1).expect("a state");
    assert_eq!(state, [(1, "$create".to_owned()), (2, "$name".to_owned())]);

    let clash = vec![(Some(1), "$create".to_owned()), (Some(2), "$a".to_owned()), (Some(2), "$b".to_owned())];
    assert!(assemble_state(&clash, 1).is_none());
    assert!(assemble_state(&ok, 3).is_none());
}

#[test]
fn auth_events_are_handed_out_before_what_they_authorize() {
    let mut walk = AuthGraphWalk::new(&strings(&["$e"]));

    assert_eq!(walk.next(), GraphAction::Consider("$e".to_owned()));
    walk.fetched("$e".to_owned(), &strings(&["$a", "$b"]));
    assert_eq!(walk.next(), GraphAction::Consider("$a".to_owned()));
    walk.fetched("$a".to_owned(), &strings(&["$b"]));
    assert_eq!(walk.next(), GraphAction::Consider("$b".to_owned()));
    assert_eq!(walk.next(), GraphAction::Emit("$a".to_owned()));
    assert_eq!(walk.next(), GraphAction::Emit("$e".to_owned()));
    assert_eq!(walk.next(), GraphAction::Done);
}

#[test]
fn auth_events_that_loop_back_are_each_handed_out_once() {
    let mut walk = AuthGraphWalk::new(&strings(&["$e"]));

    assert_eq!(walk.next(), GraphAction::Consider("$e".to_owned()));
    walk.fetched("$e".to_owned(), &strings(&["$a"]));
    assert_eq!(walk.next(), GraphAction::Consider("$a".to_owned()));
    walk.fetched("$a".to_owned(), &strings(&["$e"]));
    assert_eq!(walk.next(), GraphAction::Emit("$a".to_owned()));
    assert_eq!(walk.next(), GraphAction::Emit("$e".to_owned()));
    assert_eq!(walk.next(), GraphAction::Done);
    assert_eq!(walk.next(), GraphAction::Done);
}

#[test]
fn an_auth_event_left_unfetched_is_not_waited_for() {
    let mut walk = AuthGraphWalk::new(&strings(&["$e"]));

    assert_eq!(walk.next(), GraphAction::Consider("$e".to_owned()));
    walk.fetched("$e".to_owned(), &strings(&["$a", "$a"]));
    assert_eq!(walk.next(), GraphAction::Consider("$a".to_owned()));
    assert_eq!(walk.next(), GraphAction::Emit("$e".to_owned()));
    assert_eq!(walk.next(), GraphAction::Done);
}

#[test]
fn alias_changes_are_checked() {
    assert_eq!(check_set_alias(false, false, false), Err(AliasError::NotLocal));
    assert_eq!(check_set_alias(true, true, false), Err(AliasError::AdminAlias));
    assert_eq!(check_set_alias(true, true, true), Ok(()));
    let c = create("@c:x", "10", &[]);
    let power = Some(r#"{"users":{"@mod:x":100}}"#);
    assert_eq!(user_can_remove_alias(true, true, true, false, None, None, "@a:x"), Ok(true));
    assert_eq!(user_can_remove_alias(true, true, false, false, power, Some(&c), "@a:x"), Ok(false));
    assert_eq!(user_can_remove_alias(true, true, false, false, power, Some(&c), "@mod:x"), Ok(true));
    assert_eq!(user_can_remove_alias(true, true, false, false, None, Some(&c), "@c:x"), Ok(true));
    assert_eq!(user_can_remove_alias(true, true, false, false, None, None, "@c:x"), Err(AliasError::NoRoomState));
    assert_eq!(user_can_remove_alias(true, false, true, true, None, None, "@a:x"), Err(AliasError::NotFound));
    assert_eq!(check_remove_alias(Ok(false)), Err(AliasError::Forbidden));
    assert_eq!(alias_source(true, false, true), AliasSource::Appservice);
    assert_eq!(alias_source(false, true, true), AliasSource::Remote);
    assert_eq!(appservice_checks(true, true, false, false), Err(AliasError::Exclusive));
    assert_eq!(appservice_checks(true, false, false, true), Err(AliasError::Exclusive));
    assert_eq!(appservice_checks(true, false, false, false), Ok(()));
}

#[test]
fn appended_events_notify_their_audience() {
    let members = strings(&["@sender:x", "@a:x", "@b:x"]);
    let targets = notification_targets(&members, &vec![false, true, false], "@sender:x", Some("@new:x".to_owned()), true);
    assert_eq!(targets, ["@b:x", "@new:x"]);

    let (notifies, highlights) = tally_notifications(&targets, &vec![true, true], &vec![false, true]);
    assert_eq!(notifies, ["@b:x", "@new:x"]);
    assert_eq!(highlights, ["@new:x"]);
}

#[test]
fn an_event_sets_off_what_its_kind_calls_for() {
    assert_eq!(act_on_kind(event_kind("m.room.redaction")), Aftermath::Redact);
    assert_eq!(act_on_kind(event_kind("m.space.child")), Aftermath::ForgetSpaceSummaries);
    assert_eq!(event_kind("m.room.message"), EventKind::Message);
    assert_eq!(act_on_kind(event_kind("m.reaction")), Aftermath::Nothing);
    assert_eq!(redacted_event("10", Some("$top".to_owned()), Some("$content".to_owned())), Some("$top".to_owned()));
    assert_eq!(redacted_event("11", Some("$top".to_owned()), Some("$content".to_owned())), Some("$content".to_owned()));
    assert_eq!(related_event(None, Some("$reply".to_owned())), Some("$reply".to_owned()));
    assert!(appservice_wants(false, false, false, false, true));
    assert!(!appservice_wants(false, false, false, false, false));
    assert!(matches_users(false, true, true));
    assert!(!matches_users(false, false, true));
}

#[test]
fn relations_are_collected_to_a_depth_and_a_count() {
    assert_eq!(unsigned_count(PduCount::Backfilled(-3)), 0);
    assert_eq!(relation_to_record(PduCount::Normal(1), PduCount::Normal(2)), Some((1, 2)));
    assert_eq!(relation_to_record(PduCount::Normal(1), PduCount::Backfilled(-2)), None);

    let mut walk = RelationWalk::new(vec![PduCount::Normal(1)], 3, 2);
    let (target, depth) = walk.next_target().expect("a target");
    assert_eq!((target, depth), (PduCount::Normal(1), 1));
    walk.add_relations(depth, &vec![PduCount::Normal(2), PduCount::Normal(3), PduCount::Normal(4)]);
    assert_eq!(walk.found, [PduCount::Normal(1), PduCount::Normal(2), PduCount::Normal(3)]);
    assert!(walk.full);
    assert_eq!(walk.next_target(), None);
}

#[test]
fn relations_are_looked_into_down_to_the_depth() {
    let mut walk = RelationWalk::new(vec![PduCount::Normal(1)], 10, 2);
    let (target, depth) = walk.next_target().expect("a target");
    walk.add_relations(depth, &vec![PduCount::Normal(2), PduCount::Normal(3)]);
    assert_eq!(target, PduCount::Normal(1));
    assert_eq!(walk.stack, [(PduCount::Normal(2), 2), (PduCount::Normal(3), 2)]);
    let (target, depth) = walk.next_target().expect("a target");
    assert_eq!((target, depth), (PduCount::Normal(3), 2));
    walk.add_relations(depth, &vec![PduCount::Normal(5)]);
    assert_eq!(walk.stack, [(PduCount::Normal(2), 2)]);
    assert_eq!(
        walk.found,
        [PduCount::Normal(1), PduCount::Normal(2), PduCount::Normal(3), PduCount::Normal(5)]
    );
    assert!(!walk.full);
}

#[test]
fn gap_events_are_handled_oldest_first_then_by_id() {
    let events = vec![
        ("$c".to_string(), 20u64),
        ("$b".to_string(), 10),
        ("$a".to_string(), 20),
        ("$z".to_string(), 5),
    ];
    let sorted = sorted_oldest_first(events);
    let ids: Vec<&str> = sorted.iter().map(|(id, _)| id.as_str()).collect();
    assert_eq!(ids, vec!["$z", "$b", "$a", "$c"]);
    assert!(sorted_oldest_first(Vec::new()).is_empty());
}

#[test]
fn a_word_that_lowercases_past_the_key_is_not_indexed() {
    let long = "İ".repeat(25);
    assert_eq!(long.len(), 50);
    let body = format!("{long} Hello");
    assert_eq!(tokenize(&body), vec!["hello".to_string()]);
    assert!(tokenize(&body).iter().all(|t| t.len() <= 50));
}
