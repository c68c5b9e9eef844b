use rusteams::domain::message::ChatMessage;
use rusteams::domain::order::order_messages;
use std::time::{Duration, Instant};

#[test]
fn order_10k_messages_completes_within_budget() {
    let mut msgs: Vec<ChatMessage> = (0..10_000)
        .map(|i| ChatMessage {
            id: format!("m{i:05}"),
            chat_id: "c1".into(),
            created: (i as i64) * 1000,
            modified: (i as i64) * 1000,
            sender: "a".into(),
            body: "x".into(),
            reply_to_id: None,
            reactions: vec![],
            mentions: vec![],
            is_read: false,
        })
        .collect();
    msgs.reverse();
    let start = Instant::now();
    order_messages(&mut msgs);
    let elapsed = start.elapsed();
    println!("order 10k messages (debug): {elapsed:?}");
    assert!(elapsed < Duration::from_secs(20), "ordering blew the smoke budget: {elapsed:?}");
    assert_eq!(msgs.first().unwrap().id, "m00000");
    assert_eq!(msgs.last().unwrap().id, "m09999");
}
