use phantom_service::state_compressor::auth_entries;
use phantom_service::bytes::{u64_be_bytes, u64_from_be_bytes};
use phantom_service::registry::make_name;
use phantom_service::state_cache::{
    carry_direct_chats, purges_left_record, update_membership, MemberIndex, MembershipChange, MembershipState,
};
use phantom_service::state_compressor::{
    append_to_state, apply_state_diff, compress_state_event, compressed_state_size,
    decode_statediff, encode_statediff, first_at_key, merge_into_parent,
    new_shortstatehash_info, parse_compressed_state_event, save_state, save_state_from_diff,
    set_event_state, state_diff, CompressedState,
    ShortStateInfo, StateDiff, StateError,
};
use std::collections::BTreeSet;

fn set(entries: &[(u64, u64)]) -> CompressedState {
    entries.iter().copied().collect()
}

#[test]
fn a_service_is_named_without_its_crate() {
    assert_eq!(make_name("phantom_service::rooms::alias"), "rooms::alias");
    assert_eq!(make_name("standalone"), "");
}

#[test]
fn big_endian_bytes_round_trip() {
    let b = u64_be_bytes(0x0102_0304_0506_0708);

    assert_eq!(b, [1, 2, 3, 4, 5, 6, 7, 8]);
    assert_eq!(u64_from_be_bytes(&b, 0), 0x0102_0304_0506_0708);
}

#[test]
fn a_state_entry_packs_and_unpacks() {
    let packed = compress_state_event(7, 9);

    assert_eq!(packed[7], 7);
    assert_eq!(packed[15], 9);
    assert_eq!(parse_compressed_state_event(packed), (7, 9));
}

#[test]
fn a_diff_applied_gives_the_new_state() {
    let parent = set(&[(1, 10), (2, 20)]);
    let new = set(&[(1, 10), (3, 30)]);

    let (added, removed) = state_diff(&new, &parent);

    assert_eq!(added, set(&[(3, 30)]));
    assert_eq!(removed, set(&[(2, 20)]));
    assert_eq!(apply_state_diff(&parent, &added, &removed), new);
}

#[test]
fn merging_a_diff_into_its_parent_composes() {
    let parent = ShortStateInfo {
        shortstatehash: 2,
        full_state: set(&[(1, 10), (2, 20)]),
        added: set(&[(2, 20)]),
        removed: BTreeSet::new(),
    };

    let (added, removed) = merge_into_parent(&parent, &set(&[(3, 30)]), &set(&[(2, 20)]));

    assert_eq!(added, set(&[(3, 30)]));
    assert!(removed.is_empty());
}

#[test]
fn a_first_version_is_stored_whole() {
    let stored = save_state_from_diff(5, set(&[(1, 10)]), BTreeSet::new(), 2, Vec::new());

    let (hash, diff) = stored.expect("stored");
    assert_eq!(hash, 5);
    assert_eq!(diff.parent, None);
    assert_eq!(diff.added, set(&[(1, 10)]));
}

#[test]
fn a_stored_diff_reads_back() {
    let diff = StateDiff {
        parent: Some(4),
        added: set(&[(1, 10), (2, 20)]),
        removed: set(&[(3, 30)]),
    };

    let value = encode_statediff(&diff);
    let back = decode_statediff(&value);

    assert_eq!(back.parent, Some(4));
    assert_eq!(back.added, diff.added);
    assert_eq!(back.removed, diff.removed);
    assert_eq!(value.len(), 8 + 16 * 2 + 8 + 16);
}

#[test]
fn the_first_entry_at_a_key_is_the_smallest() {
    let full = set(&[(1, 12), (1, 11), (2, 5)]);

    assert_eq!(first_at_key(&full, 1), Some((1, 11)));
    assert_eq!(first_at_key(&full, 3), None);
}

#[test]
fn a_message_event_changes_no_state() {
    assert!(matches!(append_to_state(Some(9), None, Vec::new(), 10), Ok((9, None))));
    assert!(matches!(
        append_to_state(None, None, Vec::new(), 10),
        Err(StateError::NoPreviousState)
    ));
}

#[test]
fn a_state_event_makes_a_new_version() {
    let base = ShortStateInfo {
        shortstatehash: 1,
        full_state: set(&[(1, 10)]),
        added: set(&[(1, 10)]),
        removed: BTreeSet::new(),
    };

    let (hash, stored) = append_to_state(Some(1), Some((1, 11)), vec![base], 2).expect("saved");

    assert_eq!(hash, 2);
    // Replacing the only entry of a one-layer state is a diff as large as
    // the layer below it, so it is merged down into a new bottom layer.
    let stored = stored.expect("a layer");
    assert_eq!(stored.parent, None);
    assert_eq!(stored.added, set(&[(1, 11)]));
    assert!(stored.removed.is_empty());
}

#[test]
fn a_state_is_sized_by_its_entries() {
    assert_eq!(compressed_state_size(&set(&[(1, 1), (2, 2)])), 32);
}

fn change(membership: MembershipState) -> MembershipChange {
    MembershipChange {
        membership,
        user_is_local: true,
        user_exists: true,
        sender_ignored: false,
        has_predecessor: true,
        forget_forced_upon_leave: false,
        room_banned: false,
        room_disabled: false,
        update_joined_count: true,
        count: 7,
    }
}

#[test]
fn a_join_keeps_one_record_and_copies_settings_once() {
    let mut index = MemberIndex::new();

    let effects = update_membership(&mut index, &change(MembershipState::Join));

    assert!(index.joined && index.once_joined);
    assert_eq!(index.invited, None);
    assert!(effects.copy_room_settings);

    let effects = update_membership(&mut index, &change(MembershipState::Join));
    assert!(!effects.copy_room_settings);
}

#[test]
fn an_ignored_invite_changes_nothing() {
    let mut index = MemberIndex::new();
    let mut ignored = change(MembershipState::Invite);
    ignored.sender_ignored = true;

    update_membership(&mut index, &ignored);

    assert_eq!(index, MemberIndex::new());
}

#[test]
fn leaving_records_the_count_unless_forgotten() {
    let mut index = MemberIndex::new();
    update_membership(&mut index, &change(MembershipState::Leave));
    assert_eq!(index.left, Some(7));

    let mut forced = change(MembershipState::Leave);
    forced.room_banned = true;
    let mut index = MemberIndex::new();
    update_membership(&mut index, &forced);
    assert_eq!(index.left, None);

    assert!(purges_left_record(true, true));
    assert!(!purges_left_record(false, true));
}

#[test]
fn a_small_change_is_stacked_on_a_large_layer() {
    let entries: Vec<(u64, u64)> = (1..=10).map(|k| (k, 100 + k)).collect();
    let base = ShortStateInfo {
        shortstatehash: 1,
        full_state: set(&entries),
        added: set(&entries),
        removed: BTreeSet::new(),
    };

    let (hash, stored) = append_to_state(Some(1), Some((11, 111)), vec![base], 2).expect("saved");

    assert_eq!(hash, 2);
    let stored = stored.expect("a layer");
    assert_eq!(stored.parent, Some(1));
    assert_eq!(stored.added, set(&[(11, 111)]));
    assert!(stored.removed.is_empty());
}

#[test]
fn only_the_auth_keys_are_picked_from_the_state() {
    let full = set(&[(1, 10), (2, 20), (3, 30)]);

    assert_eq!(auth_entries(&full, &vec![3, 1, 9]), set(&[(1, 10), (3, 30)]));
    assert!(auth_entries(&full, &Vec::new()).is_empty());
}

#[test]
fn direct_chats_follow_an_upgraded_room() {
    let s = |v: &[&str]| v.iter().map(|x| x.to_string()).collect::<Vec<String>>();
    let direct = vec![s(&["!old:a", "!other:a"]), s(&["!x:b"]), s(&[])];
    let (carried, updated) = carry_direct_chats(direct, "!old:a", "!new:a");
    assert!(updated);
    assert_eq!(carried, vec![s(&["!old:a", "!other:a", "!new:a"]), s(&["!x:b"]), s(&[])]);

    let (untouched, updated) = carry_direct_chats(vec![s(&["!x:b"])], "!old:a", "!new:a");
    assert!(!updated);
    assert_eq!(untouched, vec![s(&["!x:b"])]);
}

fn layer(hash: u64, entries: &[(u64, u64)]) -> ShortStateInfo {
    ShortStateInfo { shortstatehash: hash, full_state: set(entries), added: set(entries), removed: BTreeSet::new() }
}

#[test]
fn the_membership_reported_follows_the_records() {
    let none = MemberIndex { joined: false, invited: None, knocked: None, left: None, once_joined: false };
    assert_eq!(none.user_membership(), None);
    assert_eq!(MemberIndex { once_joined: true, ..none }.user_membership(), Some(MembershipState::Ban));
    assert_eq!(MemberIndex { invited: Some(3), ..none }.user_membership(), Some(MembershipState::Invite));
    assert_eq!(MemberIndex { left: Some(4), invited: Some(3), ..none }.user_membership(), Some(MembershipState::Leave));
    assert_eq!(MemberIndex { joined: true, left: Some(4), ..none }.user_membership(), Some(MembershipState::Join));
}

#[test]
fn saving_a_known_version_changes_nothing() {
    let (change, stored) = save_state(Some(5), 5, true, set(&[(1, 10)]), vec![layer(5, &[(1, 10)])]).expect("saved");
    assert_eq!(change.shortstatehash, 5);
    assert!(change.added.is_empty() && change.removed.is_empty());
    assert!(stored.is_none());
}

#[test]
fn a_new_version_is_saved_as_its_change() {
    let (change, stored) =
        save_state(Some(1), 2, false, set(&[(1, 10), (2, 20)]), vec![layer(1, &[(1, 10), (3, 30)])]).expect("saved");
    assert_eq!(change.shortstatehash, 2);
    assert_eq!(change.added, set(&[(2, 20)]));
    assert_eq!(change.removed, set(&[(3, 30)]));
    let stored = stored.expect("a layer");
    assert_eq!(stored.parent, Some(1));
    assert_eq!(stored.added, set(&[(2, 20)]));
    assert_eq!(stored.removed, set(&[(3, 30)]));

    let (_, known) = save_state(Some(1), 2, true, set(&[(1, 10)]), vec![layer(1, &[(1, 10)])]).expect("saved");
    assert!(known.is_none());

    let (first, bottom) = save_state(None, 7, false, set(&[(1, 10)]), Vec::new()).expect("saved");
    assert_eq!(first.added, set(&[(1, 10)]));
    let bottom = bottom.expect("a layer");
    assert_eq!(bottom.parent, None);
    assert_eq!(bottom.added, set(&[(1, 10)]));
}

#[test]
fn an_events_state_is_stacked_on_the_current_version() {
    assert!(set_event_state(9, true, set(&[(1, 10)]), Vec::new()).expect("saved").is_none());
    let stored = set_event_state(9, false, set(&[(1, 10), (2, 20)]), vec![layer(1, &[(1, 10)])])
        .expect("saved")
        .expect("a layer");
    assert_eq!(stored.parent, Some(1));
    assert_eq!(stored.added, set(&[(2, 20)]));
    assert!(stored.removed.is_empty());
}

#[test]
fn a_layer_read_back_rebuilds_its_full_state() {
    let bottom = new_shortstatehash_info(1, StateDiff { parent: None, added: set(&[(1, 10)]), removed: BTreeSet::new() }, Vec::new());
    assert_eq!(bottom.len(), 1);
    assert_eq!(bottom[0].full_state, set(&[(1, 10)]));
    let stack = new_shortstatehash_info(2, StateDiff { parent: Some(1), added: set(&[(2, 20)]), removed: set(&[(1, 10)]) }, bottom);
    assert_eq!(stack.len(), 2);
    assert_eq!(stack[1].shortstatehash, 2);
    assert_eq!(stack[1].full_state, set(&[(2, 20)]));
}
