use phantom_service::room_version::v12_room_ids;
use phantom_service::stripped_state::{
    create_is_bound, dedup_stripped_state, enforce_stripped_create, entry_text, is_legacy,
    locate_stripped_create, occupies_member_cell, state_cell, stripped_create_verdict,
    without_member, CreateSearch, RawStrippedState, StrippedCreateVerdict,
};

fn create(sender: &str) -> String {
    format!(r#"{{"type":"m.room.create","state_key":"","sender":"{sender}","content":{{}}}}"#)
}

fn member(user_id: &str, sender: &str) -> String {
    format!(
        r#"{{"type":"m.room.member","state_key":"{user_id}","sender":"{sender}","content":{{"membership":"invite"}}}}"#
    )
}

fn legacy(json: &str) -> RawStrippedState {
    RawStrippedState::Stripped(json.to_owned())
}

fn pdu(json: &str) -> RawStrippedState {
    RawStrippedState::Pdu(json.to_owned())
}

fn senders(state: &[RawStrippedState]) -> Vec<String> {
    state
        .iter()
        .map(|entry| {
            let value: serde_json::Value =
                serde_json::from_str(entry_text(entry).expect("json")).expect("valid json");

            value["sender"].as_str().expect("a sender").to_owned()
        })
        .collect()
}

#[test]
fn a_cells_first_pdu_wins_over_an_earlier_legacy_entry() {
    let deduped = dedup_stripped_state(vec![
        legacy(&create("@forged:example.org")),
        pdu(&create("@genuine:example.org")),
    ]);

    assert_eq!(senders(&deduped), ["@genuine:example.org"]);
}

#[test]
fn a_cell_holding_no_pdu_keeps_its_first_legacy_entry() {
    let deduped = dedup_stripped_state(vec![
        legacy(&create("@first:example.org")),
        legacy(&create("@second:example.org")),
    ]);

    assert_eq!(senders(&deduped), ["@first:example.org"]);
}

#[test]
fn distinct_cells_all_survive_in_order() {
    let deduped = dedup_stripped_state(vec![
        pdu(&create("@creator:example.org")),
        pdu(&member("@alice:example.org", "@alice:example.org")),
        pdu(&member("@bob:example.org", "@alice:example.org")),
    ]);

    assert_eq!(deduped.len(), 3);
    assert_eq!(state_cell(&deduped[0]).expect("a cell").0, "m.room.create");
}

#[test]
fn an_entry_without_a_readable_cell_drops() {
    let deduped = dedup_stripped_state(vec![
        pdu(r#"{"sender":"@alice:example.org","content":{}}"#),
        pdu(&create("@creator:example.org")),
    ]);

    assert_eq!(senders(&deduped), ["@creator:example.org"]);
}

#[test]
fn the_invitees_membership_cell_never_survives() {
    let state = vec![
        pdu(&member("@invitee:example.org", "@forged:example.org")),
        pdu(&member("@other:example.org", "@alice:example.org")),
        pdu(&create("@creator:example.org")),
    ];

    let kept = without_member(state, "@invitee:example.org");

    assert_eq!(senders(&kept), ["@alice:example.org", "@creator:example.org"]);
}

#[test]
fn an_all_legacy_array_survives_with_every_cell_intact() {
    let name = r#"{"type":"m.room.name","state_key":"","sender":"@creator:example.org","content":{"name":"a room"}}"#;

    let deduped = dedup_stripped_state(vec![
        legacy(&create("@creator:example.org")),
        legacy(&member("@alice:example.org", "@alice:example.org")),
        legacy(name),
    ]);

    assert_eq!(deduped.len(), 3);
    assert!(deduped.iter().all(is_legacy));
    assert_eq!(
        senders(&deduped),
        ["@creator:example.org", "@alice:example.org", "@creator:example.org"]
    );
}

#[test]
fn a_cell_spelled_with_escapes_still_reads() {
    let escaped = pdu(
        r#"{"type":"m.room.member","state_key":"@invitee:example.org",
           "sender":"@forged:example.org","content":{"membership":"invite"}}"#,
    );

    assert!(occupies_member_cell(&escaped, "@invitee:example.org"));

    let kept = without_member(vec![escaped], "@invitee:example.org");

    assert!(kept.is_empty());
}

#[test]
fn a_wrong_room_create_is_rejected_for_v12_even_unenforced() {
    assert!(enforce_stripped_create(StrippedCreateVerdict::WrongRoom, true, false));
    assert!(!enforce_stripped_create(StrippedCreateVerdict::WrongRoom, false, false));
}

#[test]
fn a_missing_create_is_only_rejected_when_enforced() {
    for verdict in [
        StrippedCreateVerdict::Missing,
        StrippedCreateVerdict::NotPdu,
        StrippedCreateVerdict::BadSignature,
    ] {
        assert!(!enforce_stripped_create(verdict, true, false));
        assert!(enforce_stripped_create(verdict, false, true));
    }

    assert!(!enforce_stripped_create(StrippedCreateVerdict::Valid, true, true));
}

#[test]
fn only_v12_derives_room_ids_from_the_create_event() {
    assert!(!v12_room_ids("11"));
    assert!(v12_room_ids("12"));
}

#[test]
fn an_unknown_shape_has_no_cell() {
    assert!(state_cell(&RawStrippedState::Unknown).is_none());
    assert!(entry_text(&RawStrippedState::Unknown).is_none());
    assert!(state_cell(&pdu("not json")).is_none());
}

#[test]
fn the_create_is_found_as_a_pdu_first() {
    let state = vec![
        legacy(&create("@legacy:example.org")),
        pdu(&member("@alice:example.org", "@alice:example.org")),
        pdu(&create("@creator:example.org")),
    ];

    assert_eq!(locate_stripped_create(&state), CreateSearch::Found(2));
}

#[test]
fn a_legacy_create_alone_is_not_a_pdu() {
    let state = vec![legacy(&create("@creator:example.org"))];

    assert_eq!(locate_stripped_create(&state), CreateSearch::NotPdu);
    assert_eq!(locate_stripped_create(&Vec::new()), CreateSearch::Missing);
}

#[test]
fn a_create_is_bound_by_its_room_id_before_v12() {
    let json = r#"{"type":"m.room.create","state_key":"","room_id":"!a:example.org"}"#;

    assert!(create_is_bound(json, "!a:example.org", false, None));
    assert!(!create_is_bound(json, "!b:example.org", false, None));
    assert!(create_is_bound(json, "!hash", true, Some("!hash")));
    assert!(!create_is_bound(json, "!hash", true, None));
}

#[test]
fn the_verdict_follows_the_checks_in_order() {
    assert_eq!(
        stripped_create_verdict(CreateSearch::Missing, true, true),
        StrippedCreateVerdict::Missing
    );
    assert_eq!(
        stripped_create_verdict(CreateSearch::NotPdu, true, true),
        StrippedCreateVerdict::NotPdu
    );
    assert_eq!(
        stripped_create_verdict(CreateSearch::Found(0), false, true),
        StrippedCreateVerdict::WrongRoom
    );
    assert_eq!(
        stripped_create_verdict(CreateSearch::Found(0), true, false),
        StrippedCreateVerdict::BadSignature
    );
    assert_eq!(
        stripped_create_verdict(CreateSearch::Found(0), true, true),
        StrippedCreateVerdict::Valid
    );
}

#[test]
fn a_create_event_that_is_not_canonical_json_is_not_found() {
    let with_float = RawStrippedState::Pdu(r#"{"type":"m.room.create","state_key":"","depth":1.5}"#.to_owned());
    assert_eq!(locate_stripped_create(&vec![with_float]), CreateSearch::Missing);
    let canonical = RawStrippedState::Pdu(r#"{"type":"m.room.create","state_key":"","depth":1}"#.to_owned());
    assert_eq!(locate_stripped_create(&vec![canonical]), CreateSearch::Found(0));
}
