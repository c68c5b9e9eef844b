use rusteams::app::app_state::ConnectionState;
use rusteams::app::connection::ConnectionEvent;
use rusteams::app::reducer::{AppState, Command, Event};
use rusteams::app::shutdown::{shutdown_gate, Shutdown};
use rusteams::error::AppError;
use rusteams::app::sync::{
    due_given_age, note_connection, Poller, Supervisor, SyncLoop, TickAction, TickOutcome,
    Watermarks,
};
use rusteams::domain::message::ChatMessage;
use rusteams::time::Duration;

fn msg(id: &str, chat: &str, secs: i64) -> ChatMessage {
    ChatMessage {
        id: id.into(),
        chat_id: chat.into(),
        created: secs * 1000,
        modified: secs * 1000,
        sender: "a".into(),
        body: "x".into(),
        reply_to_id: None,
        reactions: vec![],
        mentions: vec![],
        is_read: false,
    }
}

#[test]
fn watermarks_are_due_until_synced() {
    let mut w = Watermarks::default();
    assert!(w.is_due("c1", Duration::from_secs(15)));
    w.mark_synced("c1");
    assert!(!w.is_due("c1", Duration::from_secs(3600)));
    assert!(w.is_due("c1", Duration::from_secs(0)));
}

#[test]
fn reset_makes_every_chat_due_again() {
    let mut w = Watermarks::default();
    w.mark_synced("c1");
    w.mark_synced("c2");
    w.mark_synced("c1");
    assert!(!w.is_due("c2", Duration::from_secs(3600)));
    w.reset();
    assert!(w.is_due("c1", Duration::from_secs(3600)));
    assert!(w.is_due("c2", Duration::from_secs(3600)));
}

#[test]
fn reconnecting_clears_watermarks() {
    let mut state = AppState::default();
    let mut w = Watermarks::default();
    w.mark_synced("c1");
    let ev = note_connection(&mut state, &mut w, ConnectionEvent::ReconnectAttempt);
    assert_eq!(ev, vec![Event::ConnectionChanged { state: ConnectionState::Reconnecting }]);
    assert!(w.is_due("c1", Duration::from_secs(3600)));
    w.mark_synced("c1");
    note_connection(&mut state, &mut w, ConnectionEvent::SyncComplete);
    assert_eq!(state.connection, ConnectionState::Syncing);
    assert!(!w.is_due("c1", Duration::from_secs(3600)));
}

#[test]
fn first_poll_converges_and_steady_state_is_silent() {
    let mut state = AppState::default();
    let page = vec![msg("m2", "chat-1", 20), msg("m1", "chat-1", 10)];
    let events = state.apply_poll("chat-1", &page);
    assert_eq!(
        events,
        vec![Event::MessageAppended { id: "m2".into() }, Event::MessageAppended { id: "m1".into() }]
    );
    let ids: Vec<&str> = state.messages.iter().map(|m| m.id.as_str()).collect();
    assert_eq!(ids, vec!["m1", "m2"]);
    assert!(state.apply_poll("chat-1", &page).is_empty());
}

#[test]
fn complete_poll_deletes_only_in_its_chat() {
    let mut state = AppState::default();
    state.apply(Command::MessageReceived { message: msg("o", "chat-2", 5) });
    state.apply_poll("chat-1", &[msg("a", "chat-1", 1), msg("b", "chat-1", 2)]);
    let events = state.apply_poll("chat-1", &[msg("b", "chat-1", 2)]);
    assert_eq!(events, vec![Event::MessagesDeleted { ids: vec!["a".into()] }]);
    let ids: Vec<&str> = state.messages.iter().map(|m| m.id.as_str()).collect();
    assert_eq!(ids, vec!["b", "o"]);
}

#[test]
fn duplicated_and_reordered_pages_converge() {
    let mut state = AppState::default();
    let chaos = vec![
        msg("two", "chat-1", 2),
        msg("two", "chat-1", 2),
        msg("one", "chat-1", 1),
        msg("one", "chat-1", 1),
    ];
    state.apply_poll("chat-1", &chaos);
    let ids: Vec<&str> = state.messages.iter().map(|m| m.id.as_str()).collect();
    assert_eq!(ids, vec!["one", "two"]);
    assert!(state.apply_poll("chat-1", &chaos).is_empty());
}

#[test]
fn loops_are_built_untriggered() {
    let (trigger, shutdown) = Shutdown::new();
    let poller = Poller::new(7u8, shutdown.clone());
    assert_eq!(*poller.provider(), 7);
    assert!(!poller.shutdown_triggered());
    let sync = SyncLoop::new(1u8, shutdown.clone(), Duration::from_secs(15));
    assert_eq!(sync.interval, Duration::from_secs(15));
    assert!(sync.marks.is_due("c1", Duration::from_secs(3600)));
    let sup = Supervisor::new(2u8, shutdown, Duration::from_secs(15), Duration::from_secs(1));
    assert_eq!(sup.backoff_base, Duration::from_secs(1));
    trigger.trigger();
    assert!(poller.shutdown_triggered());
    assert!(sup.shutdown.is_triggered());
}

#[test]
fn supervisor_backs_off_on_failures_and_resets_on_success() {
    let (_trigger, shutdown) = Shutdown::new();
    let sup = Supervisor::new(0u8, shutdown, Duration::from_secs(15), Duration::from_secs(1));
    assert_eq!(
        sup.after_tick(0, TickOutcome::Failed),
        TickAction::Continue { failures: 1, backoff: Some(Duration::from_secs(2)) }
    );
    assert_eq!(
        sup.after_tick(3, TickOutcome::Failed),
        TickAction::Continue { failures: 4, backoff: Some(Duration::from_secs(15)) }
    );
    assert_eq!(
        sup.after_tick(7, TickOutcome::Succeeded),
        TickAction::Continue { failures: 0, backoff: None }
    );
    assert_eq!(sup.after_tick(7, TickOutcome::ShutDown), TickAction::Stop);
}

#[test]
fn due_decision_follows_the_watermark_age() {
    let fifteen = Duration::from_secs(15);
    assert!(due_given_age(None, fifteen));
    assert!(due_given_age(Some(15_000_000_000), fifteen));
    assert!(!due_given_age(Some(14_999_999_999), fifteen));
    assert!(due_given_age(Some(0), Duration::zero()));
}

#[test]
fn marking_at_an_old_instant_makes_the_chat_due() {
    let mut w = Watermarks::default();
    let long_ago = std::time::Instant::now();
    while long_ago.elapsed() < std::time::Duration::from_millis(20) {}
    w.mark_synced_at("c1", long_ago);
    assert!(w.is_due("c1", Duration::from_millis(10)));
    assert!(!w.is_due("c1", Duration::from_secs(3600)));
    w.mark_synced_at("c1", std::time::Instant::now());
    assert!(!w.is_due("c1", Duration::from_secs(3600)));
    assert!(w.is_due("c2", Duration::from_secs(3600)));
}

#[test]
fn second_poll_in_another_order_is_silent() {
    let mut state = AppState::default();
    let page = vec![msg("m1", "chat-1", 10), msg("m3", "chat-1", 30), msg("m2", "chat-1", 20)];
    state.apply_poll("chat-1", &page);
    let again = vec![
        msg("m2", "chat-1", 20),
        msg("m3", "chat-1", 30),
        msg("m1", "chat-1", 10),
        msg("m2", "chat-1", 20),
    ];
    assert!(state.apply_poll("chat-1", &again).is_empty());
    let ids: Vec<&str> = state.messages.iter().map(|m| m.id.as_str()).collect();
    assert_eq!(ids, vec!["m1", "m2", "m3"]);
}

#[test]
fn the_shutdown_gate_stops_work_once_fired() {
    assert!(matches!(shutdown_gate(true), Err(AppError::Shutdown)));
    assert!(matches!(shutdown_gate(false), Ok(())));
}

#[test]
fn a_failed_fetch_leaves_the_state_alone() {
    let mut state = AppState::default();
    state.apply_poll("chat-1", &[msg("a", "chat-1", 1)]);
    let r = state.finish_poll("chat-1", Err(AppError::Network("down".into())));
    assert!(matches!(r, Err(AppError::Network(ref m)) if m == "down"));
    assert_eq!(state.messages.len(), 1);
    let r = state.finish_poll("chat-1", Ok(vec![msg("b", "chat-1", 2), msg("b", "chat-1", 2)]));
    assert_eq!(
        r.unwrap(),
        vec![
            Event::MessageAppended { id: "b".into() },
            Event::MessageUpserted { id: "b".into() },
            Event::MessagesDeleted { ids: vec!["a".into()] },
        ]
    );
    let ids: Vec<&str> = state.messages.iter().map(|m| m.id.as_str()).collect();
    assert_eq!(ids, vec!["b"]);
}

#[test]
fn only_a_due_selected_chat_is_polled_and_only_success_moves_it() {
    let mut w = Watermarks::default();
    assert_eq!(w.chat_to_poll(&None, Duration::zero()), None);
    assert_eq!(w.chat_to_poll(&Some("c1".into()), Duration::from_secs(3600)), Some("c1".into()));
    let failed = w.record_poll("c1", Err(AppError::Network("down".into())));
    assert!(matches!(failed, Err(AppError::Network(_))));
    assert_eq!(w.chat_to_poll(&Some("c1".into()), Duration::from_secs(3600)), Some("c1".into()));
    let ok = w.record_poll("c1", Ok(vec![]));
    assert_eq!(ok.unwrap(), vec![]);
    assert_eq!(w.chat_to_poll(&Some("c1".into()), Duration::from_secs(3600)), None);
    assert_eq!(w.chat_to_poll(&Some("c1".into()), Duration::zero()), Some("c1".into()));
}
