use phantom_service::registry::{lookup_outcome, LookupError, ServiceMap};
use phantom_service::event_handler::{
    auth_state_of, state_after, AuthEventInfo, AuthStateError,
};
use phantom_service::room_servers::{most_powerful_server, servers_by_members, servers_route_via};
use phantom_service::room_deletion::{
    after_leave_sent, eviction_of, purge_steps, tally_evictions, Eviction, PurgeStep,
    LEAVE_REASON,
};
use phantom_service::state_cache::MembershipState;
use phantom_service::typing::filter_ignored;

fn strings(items: &[&str]) -> Vec<String> {
    items.iter().map(|s| s.to_string()).collect()
}

fn auth(id: &str, held: bool, same_room: bool, cell: Option<(&str, &str)>) -> AuthEventInfo {
    AuthEventInfo {
        event_id: id.to_owned(),
        held,
        same_room,
        cell: cell.map(|(kind, key)| (kind.to_owned(), key.to_owned())),
    }
}

#[test]
fn users_are_put_out_with_their_own_leave_where_they_can_be() {
    assert_eq!(eviction_of(Some(MembershipState::Join)), Eviction::SendLeave);
    assert_eq!(eviction_of(Some(MembershipState::Invite)), Eviction::SendLeave);
    assert_eq!(eviction_of(Some(MembershipState::Knock)), Eviction::SendLeave);
    assert_eq!(eviction_of(Some(MembershipState::Leave)), Eviction::ClearLocally);
    assert_eq!(eviction_of(None), Eviction::ClearLocally);
    assert_eq!(after_leave_sent(false), Some(Eviction::ClearLocally));
    assert_eq!(after_leave_sent(true), None);
    assert_eq!(LEAVE_REASON, "Room deleted");
}

#[test]
fn a_shutdown_reports_who_was_put_out() {
    let (kicked, failed) = tally_evictions(strings(&["@a:x", "@b:x", "@c:x"]), &vec![true, false, true]);

    assert_eq!(kicked, ["@a:x", "@c:x"]);
    assert_eq!(failed, ["@b:x"]);
}

#[test]
fn a_purge_gives_up_the_short_id_last() {
    assert!(purge_steps(false).is_empty());
    let steps = purge_steps(true);
    assert_eq!(steps.first(), Some(&PurgeStep::ReadMembers));
    assert_eq!(steps.last(), Some(&PurgeStep::DeleteShortId));
    assert_eq!(steps.len(), 11);
}

#[test]
fn ignored_typists_are_not_shown() {
    assert_eq!(filter_ignored(strings(&["@a:x", "@b:x"]), Some(strings(&["@b:x"]))), ["@a:x"]);
    assert_eq!(filter_ignored(strings(&["@a:x", "@b:x"]), None), ["@a:x", "@b:x"]);
}

#[test]
fn a_state_event_takes_its_key() {
    let state = vec![(1, "$create".to_owned()), (2, "$old".to_owned())];

    assert_eq!(
        state_after(state.clone(), Some(2), "$new".to_owned()),
        [(1, "$create".to_owned()), (2, "$new".to_owned())]
    );
    assert_eq!(state_after(state.clone(), Some(3), "$x".to_owned()).len(), 3);
    assert_eq!(state_after(state.clone(), None, "$msg".to_owned()), state);
}

#[test]
fn auth_events_are_checked_in_order() {
    let ok = auth_state_of(&vec![
        auth("$create", true, true, Some(("m.room.create", ""))),
        auth("$missing", false, false, None),
        auth("$member", true, true, Some(("m.room.member", "@a:x"))),
    ])
    .expect("usable");
    assert_eq!(ok.len(), 2);
    assert_eq!(ok[1].1, "$member");

    assert_eq!(
        auth_state_of(&vec![auth("$a", true, false, Some(("m.room.create", "")))]),
        Err(AuthStateError::OtherRoom)
    );
    assert_eq!(auth_state_of(&vec![auth("$a", true, true, None)]), Err(AuthStateError::NotState));
    assert_eq!(
        auth_state_of(&vec![
            auth("$a", true, true, Some(("m.room.create", ""))),
            auth("$b", true, true, Some(("m.room.create", ""))),
        ]),
        Err(AuthStateError::Duplicate)
    );
}

#[test]
fn a_registered_service_is_found_under_its_name() {
    let mut map: ServiceMap<u32> = ServiceMap::new();
    map.add("rooms::typing".to_owned(), 1);
    map.add("rooms::alias".to_owned(), 2);
    map.add("rooms::typing".to_owned(), 3);

    assert_eq!(map.get("rooms::typing"), Some(&3));
    assert_eq!(map.get("rooms::alias"), Some(&2));
    assert_eq!(map.get("rooms::search"), None);
    assert_eq!(map.len(), 2);
    assert_eq!(map.values(), &vec![2, 3]);

    assert_eq!(lookup_outcome(false, true, true), Err(LookupError::Missing));
    assert_eq!(lookup_outcome(true, false, true), Err(LookupError::Dropped));
    assert_eq!(lookup_outcome(true, true, false), Err(LookupError::WrongType));
    assert_eq!(lookup_outcome(true, true, true), Ok(()));
}

#[test]
fn routing_servers_are_ranked_by_members() {
    let members = strings(&["a", "b", "b", "c", "c", "c", "d", "e", "f", "g", "g"]);
    let ranked = servers_by_members(&members);
    assert_eq!(ranked.len(), 5);
    assert_eq!(ranked[0], "c");
    let mut middle = vec![ranked[1].clone(), ranked[2].clone()];
    middle.sort();
    assert_eq!(middle, strings(&["b", "g"]));
    assert!(["a", "d", "e", "f"].contains(&ranked[3].as_str()));
    assert!(["a", "d", "e", "f"].contains(&ranked[4].as_str()));
    assert_ne!(ranked[3], ranked[4]);

    assert_eq!(servers_by_members(&strings(&["x", "y", "x"])), strings(&["x", "y"]));
    assert!(servers_by_members(&Vec::new()).is_empty());
}

#[test]
fn the_most_powerful_users_server_leads_the_routing_servers() {
    let users = vec![("one".to_string(), 100i64), ("two".to_string(), 100), ("three".to_string(), 50)];
    assert_eq!(most_powerful_server(&users), Some("two".to_string()));
    assert_eq!(most_powerful_server(&vec![("low".to_string(), 49i64)]), None);
    assert_eq!(most_powerful_server(&Vec::new()), None);

    let members = strings(&["a", "a", "b", "c", "d", "e"]);
    let routed = servers_route_via(Some("a".to_string()), &members);
    assert_eq!(routed.len(), 5);
    assert_eq!(routed[0], "a");
    assert_eq!(routed[1], "a");
    assert_eq!(servers_route_via(None, &strings(&["z"])), strings(&["z"]));
}
