use rusteams::domain::message::{dedupe_messages, diff_sync, ChatMessage};
use rusteams::domain::order::order_messages;
use rusteams::domain::presence::{parse_availability, Availability};
use rusteams::domain::thread::{build_threads, ThreadNode};

fn msg(id: &str, secs: i64) -> ChatMessage {
    ChatMessage {
        id: id.into(),
        chat_id: "c1".into(),
        created: secs * 1000,
        modified: secs * 1000,
        sender: "alice".into(),
        body: "hi".into(),
        reply_to_id: None,
        reactions: vec![],
        mentions: vec![],
        is_read: false,
    }
}

fn reply(id: &str, secs: i64, reply_to: Option<&str>) -> ChatMessage {
    let mut m = msg(id, secs);
    m.reply_to_id = reply_to.map(|s| s.to_string());
    m
}

#[test]
fn ordering_is_oldest_first_and_deterministic() {
    let mut v = vec![msg("b", 20), msg("a", 10), msg("c", 10)];
    order_messages(&mut v);
    assert_eq!(v[0].id, "a");
    assert_eq!(v[1].id, "c");
    assert_eq!(v[2].id, "b");
}

#[test]
fn dedupe_keeps_newest_modified_copy() {
    let mut m2 = msg("x", 10);
    m2.modified = 99_000;
    m2.body = "edited".into();
    let out = dedupe_messages(vec![m2.clone(), msg("x", 10)]);
    assert_eq!(out.len(), 1);
    assert_eq!(out[0].body, "edited");
}

#[test]
fn diff_detects_new_updated_and_deleted() {
    let cached = vec![msg("keep", 10), msg("gone", 10)];
    let mut changed_msg = msg("keep", 10);
    changed_msg.body = "edited".into();
    let fetched = vec![changed_msg, msg("fresh", 30)];
    let (changed, deleted) = diff_sync(&cached, &fetched, true);
    assert_eq!(changed.len(), 2);
    assert_eq!(deleted, vec!["gone".to_string()]);
}

#[test]
fn diff_does_not_report_deletions_on_partial_fetch() {
    let cached = vec![msg("a", 10)];
    let (changed, deleted) = diff_sync(&cached, &[], false);
    assert!(changed.is_empty());
    assert!(deleted.is_empty());
}

#[test]
fn diff_of_identical_pages_is_empty() {
    let page = vec![msg("a", 10), msg("b", 20)];
    let (changed, deleted) = diff_sync(&page, &page, true);
    assert!(changed.is_empty());
    assert!(deleted.is_empty());
}

#[test]
fn ordering_ties_break_on_id_bytes() {
    let mut v = vec![msg("m10", 5), msg("m9", 5), msg("M9", 5)];
    order_messages(&mut v);
    let ids: Vec<&str> = v.iter().map(|m| m.id.as_str()).collect();
    assert_eq!(ids, vec!["M9", "m10", "m9"]);
}

#[test]
fn ordering_twice_changes_nothing() {
    let mut a = vec![msg("c", 3), msg("a", 1), msg("b", 1), msg("d", 0)];
    order_messages(&mut a);
    let mut b = a.clone();
    order_messages(&mut b);
    assert_eq!(a, b);
    let mut rev = vec![msg("d", 0), msg("b", 1), msg("a", 1), msg("c", 3)];
    order_messages(&mut rev);
    assert_eq!(a, rev);
}

#[test]
fn dedupe_is_idempotent_and_ordered() {
    let mut newer = msg("x", 10);
    newer.modified = 20_000;
    let once = dedupe_messages(vec![msg("y", 5), msg("x", 10), newer, msg("y", 5)]);
    assert_eq!(once.len(), 2);
    assert_eq!(once[0].id, "y");
    assert_eq!(once[1].modified, 20_000);
    assert_eq!(dedupe_messages(once.clone()), once);
}

#[test]
fn known_values_parse() {
    assert_eq!(parse_availability("Available"), Availability::Available);
    assert_eq!(parse_availability("busy"), Availability::Busy);
    assert_eq!(parse_availability("PresenceUnknown"), Availability::PresenceUnknown);
}

#[test]
fn unknown_values_are_fail_safe() {
    assert_eq!(
        parse_availability("InACustomState"),
        Availability::Unknown("InACustomState".into())
    );
    assert_eq!(parse_availability(""), Availability::Unknown("".into()));
}

#[test]
fn availability_ignores_ascii_case_only() {
    assert_eq!(parse_availability("DoNotDisturb"), Availability::DoNotDisturb);
    assert_eq!(parse_availability("BERIGHTBACK"), Availability::BeRightBack);
    assert_eq!(parse_availability("oFFLINE"), Availability::Offline);
    assert_eq!(parse_availability("AWAY"), Availability::Away);
    assert_eq!(parse_availability("busy "), Availability::Unknown("busy ".into()));
}

#[test]
fn nests_replies_under_roots_in_order() {
    let v = vec![
        reply("r1", 30, Some("root")),
        reply("root", 10, None),
        reply("r2", 20, Some("root")),
    ];
    let trees = build_threads(v);
    assert_eq!(trees.len(), 1);
    assert_eq!(trees[0].message.id, "root");
    assert_eq!(trees[0].replies.len(), 2);
    assert_eq!(trees[0].replies[0].message.id, "r2");
    assert_eq!(trees[0].replies[1].message.id, "r1");
}

#[test]
fn orphans_and_self_replies_become_roots() {
    let v = vec![
        reply("orphan", 20, Some("missing")),
        reply("selfish", 30, Some("selfish")),
        reply("root", 10, None),
    ];
    let trees = build_threads(v);
    assert_eq!(trees.len(), 3);
    assert_eq!(trees[0].message.id, "root");
}

#[test]
fn out_of_order_input_still_deterministic() {
    let a = vec![reply("b", 20, None), reply("a", 10, None)];
    let b = vec![reply("a", 10, None), reply("b", 20, None)];
    assert_eq!(build_threads(a), build_threads(b));
}

fn count(n: &ThreadNode) -> usize {
    1 + n.replies.iter().map(count).sum::<usize>()
}

#[test]
fn reply_cycles_are_cut_and_every_message_kept() {
    let v = vec![reply("a", 10, Some("b")), reply("b", 20, Some("a")), reply("c", 30, Some("b"))];
    let trees = build_threads(v);
    let total: usize = trees.iter().map(count).sum();
    assert_eq!(total, 3);
    assert!(!trees.is_empty());
}

#[test]
fn threads_keep_the_latest_copy_of_an_id() {
    let mut newer = reply("a", 10, None);
    newer.body = "second".into();
    let trees = build_threads(vec![reply("a", 10, None), newer]);
    assert_eq!(trees.len(), 1);
    assert_eq!(trees[0].message.body, "second");
}

#[test]
fn the_oldest_link_of_a_loop_is_the_one_cut() {
    // a -> b -> a: a is visited first, so a's link goes and a roots the loop.
    let v = vec![reply("b", 20, Some("a")), reply("a", 10, Some("b")), reply("c", 30, Some("b"))];
    let trees = build_threads(v);
    assert_eq!(trees.len(), 1);
    assert_eq!(trees[0].message.id, "a");
    assert_eq!(trees[0].replies.len(), 1);
    assert_eq!(trees[0].replies[0].message.id, "b");
    assert_eq!(trees[0].replies[0].replies[0].message.id, "c");
    // t -> x -> y -> x with t oldest: t is cut first, then x.
    let w = vec![
        reply("t", 5, Some("x")),
        reply("x", 10, Some("y")),
        reply("y", 20, Some("x")),
    ];
    let trees = build_threads(w);
    assert_eq!(trees.len(), 2);
    assert_eq!(trees[0].message.id, "t");
    assert!(trees[0].replies.is_empty());
    assert_eq!(trees[1].message.id, "x");
    assert_eq!(trees[1].replies[0].message.id, "y");
}

#[test]
fn sub_millisecond_instants_keep_their_order() {
    let mut a = msg("z-first", 0);
    a.created = 1_700_000_000_000_000_001;
    let mut b = msg("a-second", 0);
    b.created = 1_700_000_000_000_000_002;
    let mut v = vec![b, a];
    order_messages(&mut v);
    assert_eq!(v[0].id, "z-first");
    assert_eq!(v[1].id, "a-second");
}
