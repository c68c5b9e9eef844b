use rusteams::app::app_state::ConnectionState;
use rusteams::app::connection::ConnectionEvent;
use rusteams::app::reducer::{AppState, Command, Event};
use rusteams::app::shutdown::Shutdown;
use rusteams::domain::message::ChatMessage;

fn msg(id: &str) -> ChatMessage {
    ChatMessage {
        id: id.into(),
        chat_id: "c1".into(),
        created: 10_000,
        modified: 10_000,
        sender: "alice".into(),
        body: "hi".into(),
        reply_to_id: None,
        reactions: vec![],
        mentions: vec![],
        is_read: false,
    }
}

#[test]
fn select_chat_records_selection() {
    let mut s = AppState::default();
    let ev = s.apply(Command::SelectChat { chat_id: "c1".into() });
    assert_eq!(ev, vec![Event::ChatSelected { chat_id: "c1".into() }]);
    assert_eq!(s.selected_chat.as_deref(), Some("c1"));
}

#[test]
fn sent_message_appends_and_rejects_empty_body() {
    let mut s = AppState::default();
    let ev = s.apply(Command::MessageSent { message: msg("m1") });
    assert_eq!(ev, vec![Event::MessageAppended { id: "m1".into() }]);
    assert_eq!(s.messages.len(), 1);

    let mut empty = msg("m2");
    empty.body = "   ".into();
    let ev = s.apply(Command::MessageSent { message: empty });
    assert_eq!(ev, vec![Event::Rejected { reason: "empty body" }]);
    assert_eq!(s.messages.len(), 1);
}

#[test]
fn received_message_upserts_by_id() {
    let mut s = AppState::default();
    s.apply(Command::MessageReceived { message: msg("m1") });
    let mut edited = msg("m1");
    edited.body = "edited".into();
    let ev = s.apply(Command::MessageReceived { message: edited });
    assert_eq!(ev, vec![Event::MessageUpserted { id: "m1".into() }]);
    assert_eq!(s.messages.len(), 1);
    assert_eq!(s.messages[0].body, "edited");
}

#[test]
fn connection_events_drive_state_machine() {
    let mut s = AppState::default();
    assert_eq!(s.connection, ConnectionState::Disconnected);
    let ev = s.apply(Command::ConnectionEvent(ConnectionEvent::ReconnectAttempt));
    assert_eq!(s.connection, ConnectionState::Reconnecting);
    assert_eq!(ev, vec![Event::ConnectionChanged { state: ConnectionState::Reconnecting }]);
}

#[test]
fn reducer_is_deterministic() {
    let run = || {
        let mut s = AppState::default();
        s.apply(Command::SelectChat { chat_id: "c1".into() });
        s.apply(Command::MessageReceived { message: msg("m1") });
        (s.selected_chat.clone(), s.messages.len())
    };
    assert_eq!(run(), run());
}

#[test]
fn messages_loaded_replaces_chat_scope_only() {
    let mut s = AppState::default();
    let mut other = msg("other");
    other.chat_id = "c2".into();
    s.apply(Command::MessageReceived { message: other });
    s.apply(Command::MessagesLoaded { chat_id: "c1".into(), messages: vec![msg("m1")] });
    assert!(s.messages.iter().any(|m| m.id == "other"));
    assert!(s.messages.iter().any(|m| m.id == "m1"));
}

#[test]
fn confirmed_send_swaps_temp_for_real_message() {
    let mut s = AppState::default();
    let mut temp = msg("temp-1");
    temp.body = "draft".into();
    s.apply(Command::MessageSent { message: temp });
    let mut real = msg("m-9");
    real.body = "draft".into();
    let ev = s.apply(Command::MessageConfirmed { temp_id: "temp-1".into(), message: real });
    assert_eq!(ev, vec![Event::MessageUpserted { id: "m-9".into() }]);
    assert_eq!(s.messages.len(), 1);
    assert_eq!(s.messages[0].id, "m-9");
}

#[test]
fn confirmed_send_without_temp_appends() {
    let mut s = AppState::default();
    let ev = s.apply(Command::MessageConfirmed { temp_id: "gone".into(), message: msg("m-9") });
    assert_eq!(ev, vec![Event::MessageAppended { id: "m-9".into() }]);
    assert_eq!(s.messages.len(), 1);
}

#[test]
fn shutdown_mid_sequence_leaves_valid_state() {
    let (trigger, shutdown) = Shutdown::new();
    let mut state = AppState::default();
    let mk = |id: &str| ChatMessage {
        id: id.into(),
        chat_id: "c1".into(),
        created: 10_000,
        modified: 10_000,
        sender: "a".into(),
        body: "x".into(),
        reply_to_id: None,
        reactions: vec![],
        mentions: vec![],
        is_read: false,
    };
    state.apply(Command::MessageReceived { message: mk("m2") });
    trigger.trigger();
    assert!(shutdown.is_triggered());
    state.apply(Command::MessageReceived { message: mk("m1") });
    let ids: Vec<&str> = state.messages.iter().map(|m| m.id.as_str()).collect();
    assert_eq!(ids, vec!["m1", "m2"]);
}

#[test]
fn chats_loaded_replaces_the_list() {
    let mut s = AppState::default();
    let ev = s.apply(Command::ChatsLoaded { chats: vec![] });
    assert_eq!(ev, vec![Event::ChatsReplaced { count: 0 }]);
}

#[test]
fn sync_diff_upserts_then_deletes() {
    let mut s = AppState::default();
    s.apply(Command::MessageReceived { message: msg("a") });
    s.apply(Command::MessageReceived { message: msg("b") });
    let mut edited = msg("a");
    edited.body = "edited".into();
    let ev = s.apply(Command::SyncDiffApplied {
        chat_id: "c1".into(),
        changed: vec![edited, msg("c")],
        deleted: vec!["b".into()],
    });
    assert_eq!(
        ev,
        vec![
            Event::MessageUpserted { id: "a".into() },
            Event::MessageAppended { id: "c".into() },
            Event::MessagesDeleted { ids: vec!["b".into()] },
        ]
    );
    let ids: Vec<&str> = s.messages.iter().map(|m| m.id.as_str()).collect();
    assert_eq!(ids, vec!["a", "c"]);
    assert_eq!(s.messages[0].body, "edited");
}

#[test]
fn messages_stay_ordered_after_every_command() {
    let mut s = AppState::default();
    let mut late = msg("z");
    late.created = 50_000;
    s.apply(Command::MessageReceived { message: late });
    s.apply(Command::MessageReceived { message: msg("b") });
    s.apply(Command::MessageSent { message: msg("a") });
    let ids: Vec<&str> = s.messages.iter().map(|m| m.id.as_str()).collect();
    assert_eq!(ids, vec!["a", "b", "z"]);
}

#[test]
fn clones_share_the_signal() {
    let (trigger, shutdown) = Shutdown::new();
    let other = shutdown.clone();
    assert!(!other.is_triggered());
    trigger.trigger();
    trigger.trigger();
    assert!(other.is_triggered());
    assert!(shutdown.is_triggered());
}
