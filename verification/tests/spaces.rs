use phantom_service::spaces::{
    accessible_to, candidates, children_of, decode_token_text, encode_token_text, Arrival,
    HierarchyError, HierarchyWalk, PaginationToken, SpaceChild, SummaryJoinRule,
};

fn child(room_id: &str, suggested: bool) -> SpaceChild {
    SpaceChild {
        room_id: room_id.to_owned(),
        via: vec!["x.test".to_owned()],
        suggested,
    }
}

#[test]
fn compares_parameters_not_position() {
    let a = PaginationToken {
        path: vec![1],
        limit: 10,
        max_depth: 3,
        suggested_only: false,
    };
    let b = PaginationToken {
        path: vec![1, 2],
        ..a.clone()
    };
    let c = PaginationToken {
        limit: 11,
        ..a.clone()
    };

    assert!(a.same_parameters(&b));
    assert!(!a.same_parameters(&c));
}

#[test]
fn token_text_is_unpadded_url_safe_base64() {
    let text = encode_token_text(b"{\"l\":10}");

    assert_eq!(text, "eyJsIjoxMH0");
    assert_eq!(decode_token_text(&text), Ok(b"{\"l\":10}".to_vec()));
    assert_eq!(decode_token_text("not a token"), Err(HierarchyError::InvalidToken));
}

#[test]
fn only_suggested_children_are_walked_when_asked() {
    let children = vec![child("!a:x", true), child("!b:x", false), child("!c:x", true)];

    let all = children_of(children.clone(), false);
    let suggested = children_of(children, true);

    assert_eq!(all.len(), 3);
    assert_eq!(
        suggested.iter().map(|c| c.room_id.as_str()).collect::<Vec<_>>(),
        ["!a:x", "!c:x"]
    );
}

#[test]
fn candidates_skip_this_server_and_repeats() {
    let via = vec![
        "one.test".to_owned(),
        "me.test".to_owned(),
        "two.test".to_owned(),
        "one.test".to_owned(),
    ];

    assert_eq!(
        candidates(&via, Some("three.test".to_owned()), "me.test"),
        ["one.test", "two.test", "three.test"]
    );
    assert_eq!(candidates(&via, Some("two.test".to_owned()), "me.test"), ["one.test", "two.test"]);
}

#[test]
fn a_summary_is_seen_by_members_and_by_anyone_a_rule_lets_in() {
    assert!(accessible_to(true, false, SummaryJoinRule::Closed, false));
    assert!(accessible_to(false, true, SummaryJoinRule::Closed, false));
    assert!(accessible_to(false, false, SummaryJoinRule::Public, false));
    assert!(accessible_to(false, false, SummaryJoinRule::Knock, false));
    assert!(accessible_to(false, false, SummaryJoinRule::KnockRestricted, false));
    assert!(accessible_to(false, false, SummaryJoinRule::Restricted, true));
    assert!(!accessible_to(false, false, SummaryJoinRule::Restricted, false));
    assert!(!accessible_to(false, false, SummaryJoinRule::Closed, false));
}

#[test]
fn changed_parameters_are_refused() {
    let token = PaginationToken {
        path: vec![1],
        limit: 10,
        max_depth: 3,
        suggested_only: false,
    };

    assert!(matches!(
        HierarchyWalk::start(1, 11, 3, false, Some(token.clone())),
        Err(HierarchyError::ChangedParameters)
    ));
    assert!(HierarchyWalk::start(1, 10, 3, false, Some(token)).is_ok());
}

fn walk_all(walk: &mut HierarchyWalk, tree: &[(u64, Vec<u64>)]) -> (Vec<u64>, Option<PaginationToken>) {
    let children_of_room = |short: u64| -> Vec<SpaceChild> {
        tree.iter()
            .find(|(room, _)| *room == short)
            .map(|(_, kids)| kids.iter().map(|k| child(&k.to_string(), false)).collect())
            .unwrap_or_default()
    };

    let mut emitted = Vec::new();
    match walk.arrive(1, children_of_room(1)) {
        Arrival::Emit => emitted.push(1),
        Arrival::Pass => {}
        Arrival::Stop(token) => return (emitted, Some(token)),
    }

    while let Some(next) = walk.next_child() {
        let short: u64 = next.room_id.parse().expect("a number");
        if !walk.first_visit(short) {
            continue;
        }
        match walk.arrive(short, children_of_room(short)) {
            Arrival::Emit => emitted.push(short),
            Arrival::Pass => {}
            Arrival::Stop(token) => return (emitted, Some(token)),
        }
    }

    (emitted, None)
}

#[test]
fn a_walk_pages_through_a_space_and_resumes_where_it_stopped() {
    let tree = vec![(1, vec![2, 3]), (2, vec![4, 1]), (3, vec![4])];

    let mut first = HierarchyWalk::start(1, 2, 5, false, None).expect("a walk");
    let (page, token) = walk_all(&mut first, &tree);

    assert_eq!(page, [1, 2]);
    let token = token.expect("more to come");
    assert_eq!(token.path, [1, 2, 4]);

    let mut second = HierarchyWalk::start(1, 2, 5, false, Some(token)).expect("a walk");
    let (page, token) = walk_all(&mut second, &tree);

    assert_eq!(page, [4, 3]);
    assert!(token.is_none());
}

#[test]
fn a_walk_does_not_descend_past_its_depth() {
    let tree = vec![(1, vec![2]), (2, vec![3])];

    let mut walk = HierarchyWalk::start(1, 10, 1, false, None).expect("a walk");
    let (page, token) = walk_all(&mut walk, &tree);

    assert_eq!(page, [1, 2]);
    assert!(token.is_none());
}

#[test]
fn two_pages_are_the_start_of_the_whole_walk() {
    let tree = vec![(1, vec![2, 3]), (2, vec![4, 1]), (3, vec![4, 5]), (5, vec![6])];

    let mut whole = HierarchyWalk::start(1, 100, 5, false, None).expect("a walk");
    let (all, token) = walk_all(&mut whole, &tree);
    assert!(token.is_none());
    assert_eq!(all, [1, 2, 4, 3, 5, 6]);

    let mut first = HierarchyWalk::start(1, 2, 5, false, None).expect("a walk");
    let (page1, token) = walk_all(&mut first, &tree);
    let token = token.expect("more to come");
    let mut second = HierarchyWalk::start(1, 2, 5, false, Some(token)).expect("a walk");
    let (page2, _) = walk_all(&mut second, &tree);

    let joined: Vec<u64> = page1.iter().chain(page2.iter()).copied().collect();
    assert_eq!(joined, all[..4]);
}
