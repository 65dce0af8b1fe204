use phantom_service::auth_chain::{bucket_keys, union_of_chains, AuthChainWalk, NUM_BUCKETS};
use phantom_service::lazy_loading::{
    into_status, next_record, retains, LazyLoadOptions, LazyLoadRecord, Options, Status,
};
use phantom_service::room_servers::{add_servers_invite_via, recount_servers};
use phantom_service::text_order::{compare_texts, insert_sorted, TextOrder};
use phantom_service::threads::{add_participant, participants_value, thread_count_after_reply, MAX_SAFE_UINT};
use phantom_service::typing::RoomTyping;

fn strings(items: &[&str]) -> Vec<String> {
    items.iter().map(|s| s.to_string()).collect()
}

#[test]
fn lazy_loading_options_read_as_documented() {
    assert!(!LazyLoadOptions::Disabled.is_enabled());
    assert!(LazyLoadOptions::Enabled { include_redundant_members: false }.is_enabled());
    assert!(LazyLoadOptions::Enabled { include_redundant_members: true }.include_redundant_members());
    assert!(!LazyLoadOptions::Disabled.include_redundant_members());
    assert_eq!(into_status(None), Status::Unseen);
    assert_eq!(into_status(Some(3)), Status::Seen(3));
}

#[test]
fn a_member_is_sent_until_confirmed_then_only_at_its_token() {
    assert_eq!(next_record(Status::Unseen, Some(5)), Some(0));
    assert_eq!(next_record(Status::Seen(0), Some(5)), Some(5));
    assert_eq!(next_record(Status::Seen(0), None), Some(0));
    assert_eq!(next_record(Status::Seen(5), Some(6)), None);
    assert!(retains(Status::Unseen, None, false));
    assert!(retains(Status::Seen(0), Some(1), false));
    assert!(retains(Status::Seen(5), Some(5), false));
    assert!(!retains(Status::Seen(5), Some(6), false));
    assert!(retains(Status::Seen(5), Some(6), true));
}

#[test]
fn successive_syncs_send_a_member_as_the_record_allows() {
    let mut record = LazyLoadRecord::new();
    let enabled = Some(LazyLoadOptions::Enabled { include_redundant_members: false });

    let first = record.witness_retain(strings(&["@a:x", "@b:x"]), Some(1), enabled);
    assert_eq!(first, ["@a:x", "@b:x"]);
    assert_eq!(record.status(&"@a:x".to_owned()), Status::Seen(0));

    let second = record.witness_retain(strings(&["@a:x"]), Some(2), enabled);
    assert_eq!(second, ["@a:x"]);
    assert_eq!(record.status(&"@a:x".to_owned()), Status::Seen(2));

    let third = record.witness_retain(strings(&["@a:x", "@c:x"]), Some(3), enabled);
    assert_eq!(third, ["@c:x"]);

    let again = record.witness_retain(strings(&["@a:x"]), Some(2), enabled);
    assert_eq!(again, ["@a:x"]);

    record.reset();
    assert_eq!(record.status(&"@a:x".to_owned()), Status::Unseen);
}

#[test]
fn typing_expires_and_is_listed_in_order() {
    let mut room = RoomTyping::new();

    room.typing_add("@b:x".to_owned(), 100, 1);
    room.typing_add("@a:x".to_owned(), 50, 2);
    room.typing_add("@c:x".to_owned(), 200, 3);
    assert_eq!(room.typing_users(), ["@a:x", "@b:x", "@c:x"]);
    assert_eq!(room.update(), 3);

    let removed = room.expire(120);
    assert_eq!(removed, ["@a:x", "@b:x"]);
    assert_eq!(room.typing_users(), ["@c:x"]);
    assert_eq!(room.timeout_of(&"@c:x".to_owned()), Some(200));

    room.typing_remove(&"@c:x".to_owned(), 4);
    assert!(room.typing_users().is_empty());
    assert_eq!(room.update(), 4);
}

#[test]
fn texts_order_by_code_point() {
    assert_eq!(compare_texts("a", "b"), TextOrder::Before);
    assert_eq!(compare_texts("ab", "a"), TextOrder::After);
    assert_eq!(compare_texts("é", "z"), TextOrder::After);
    assert_eq!(compare_texts("same", "same"), TextOrder::Same);

    let mut v = strings(&["a", "c"]);
    insert_sorted(&mut v, "b".to_owned());
    insert_sorted(&mut v, "a".to_owned());
    assert_eq!(v, ["a", "b", "c"]);
}

#[test]
fn invite_via_servers_stay_sorted_and_distinct() {
    let servers = add_servers_invite_via(strings(&["b.test", "d.test"]), strings(&["c.test", "b.test", "a.test"]));

    assert_eq!(servers, ["a.test", "b.test", "c.test", "d.test"]);
}

#[test]
fn a_recount_drops_servers_no_member_is_on() {
    let recount = recount_servers(
        &strings(&["one.test", "two.test", "one.test"]),
        &strings(&["three.test", "one.test"]),
    );

    assert_eq!(recount.joined_count, 3);
    assert_eq!(recount.servers, ["one.test", "two.test"]);
    assert_eq!(recount.stale, ["three.test"]);
}

#[test]
fn a_thread_counts_its_replies_and_their_senders() {
    assert_eq!(thread_count_after_reply(None), 1);
    assert_eq!(thread_count_after_reply(Some(4)), 5);
    assert_eq!(thread_count_after_reply(Some(MAX_SAFE_UINT)), MAX_SAFE_UINT);

    assert_eq!(add_participant(None, "@root:x".to_owned(), "@reply:x".to_owned()), ["@root:x", "@reply:x"]);
    assert_eq!(
        add_participant(Some(strings(&["@root:x", "@reply:x"])), "@root:x".to_owned(), "@reply:x".to_owned()),
        ["@root:x", "@reply:x"]
    );
    assert_eq!(participants_value(&vec![b"@a:x".to_vec(), b"@b:x".to_vec()]), b"@a:x\xFF@b:x".to_vec());
}

#[test]
fn starting_events_fall_in_buckets_by_short_id() {
    let buckets = bucket_keys(&vec![101, 1, 51, 2, 1]);

    assert_eq!(buckets.len() as u64, NUM_BUCKETS);
    assert_eq!(buckets[1], [1, 51, 101]);
    assert_eq!(buckets[2], [2]);
    assert!(buckets[3].is_empty());
}

#[test]
fn chains_are_merged_sorted_and_distinct() {
    assert_eq!(union_of_chains(&vec![vec![5, 1], vec![3, 5], vec![]]), [1, 3, 5]);
}

#[test]
fn an_auth_chain_walk_queues_each_event_once() {
    let mut walk = AuthChainWalk::new("$e".to_owned());

    assert_eq!(walk.next_event(), Some("$e".to_owned()));
    walk.offer(2, "$b".to_owned());
    walk.offer(1, "$a".to_owned());
    walk.offer(2, "$b".to_owned());
    assert_eq!(walk.next_event(), Some("$b".to_owned()));
    assert_eq!(walk.next_event(), Some("$a".to_owned()));
    assert_eq!(walk.next_event(), None);
    assert_eq!(walk.chain(), [1, 2]);
}
