use rusteams::app::reducer::{AppState, Command, Event};
use rusteams::error::AppError;
use rusteams::domain::message::ChatMessage;
use rusteams::time::Duration;
use rusteams::tui::app::{conversation_text, header_line, sidebar_lines, MessageRow, ReadView};
use rusteams::tui::compose::{Composer, Palette};
use rusteams::tui::confirm::Confirm;
use rusteams::tui::keys::{map_key, run_scripted, KeyAction, KeyCode, KeyEvent, KeyModifiers};
use rusteams::tui::notify::{notify_for_message, NoticeQueue};
use rusteams::tui::submit::{blank_submit, optimistic_message};

fn key(code: KeyCode) -> KeyEvent {
    KeyEvent::new(code, KeyModifiers::none())
}

fn ctrl(code: KeyCode) -> KeyEvent {
    KeyEvent::new(code, KeyModifiers::control())
}

#[test]
fn composer_edits_and_submits_non_empty_input() {
    let mut c = Composer::new();
    c.insert("hello");
    c.insert(" world");
    assert_eq!(c.text(), "hello world");
    c.backspace(6);
    assert_eq!(c.text(), "hello");
    let submitted = c.submit().expect("non-empty submits");
    assert_eq!(submitted, "hello");
    assert_eq!(c.text(), "", "submit clears the buffer");
}

#[test]
fn composer_rejects_blank_submit() {
    let mut c = Composer::new();
    c.insert("   ");
    assert!(c.submit().is_none(), "blank input never sends");
    assert_eq!(c.text(), "   ", "buffer preserved on reject");
}

#[test]
fn backspace_is_unicode_safe_and_clears_short_buffers() {
    let mut c = Composer::default();
    c.insert("hé💘");
    c.backspace(1);
    assert_eq!(c.text(), "hé");
    c.backspace(10);
    assert_eq!(c.text(), "");
}

#[test]
fn palette_filters_commands_by_substring() {
    let p = Palette::new(vec!["login".into(), "logout".into(), "quit".into()]);
    assert_eq!(p.filter("log"), vec!["login", "logout"]);
    assert_eq!(p.filter("QUIT"), vec!["quit"], "filter is case-insensitive");
    assert!(p.filter("zzz").is_empty());
}

#[test]
fn palette_empty_query_keeps_everything_in_order() {
    let p = Palette::new(vec!["Quit".into(), "Login".into()]);
    assert_eq!(p.filter(""), vec!["Quit", "Login"]);
    assert_eq!(p.filter("LOG"), vec!["Login"]);
}

#[test]
fn confirm_asks_then_resolves() {
    let mut c = Confirm::ask("Delete this message?");
    assert_eq!(c.prompt(), "Delete this message?");
    assert_eq!(c.answer(), None, "unresolved until answered");
    c.resolve(true);
    assert_eq!(c.answer(), Some(true));
}

#[test]
fn confirm_reject_is_explicit() {
    let mut c = Confirm::ask("Delete this message?");
    c.resolve(false);
    assert_eq!(c.answer(), Some(false));
}

#[test]
fn first_answer_wins() {
    let mut c = Confirm::ask("Sure?");
    c.resolve(false);
    c.resolve(true);
    c.resolve(true);
    assert_eq!(c.answer(), Some(false));
}

#[test]
fn vim_and_emacs_navigation_converge() {
    assert_eq!(map_key(key(KeyCode::Char('j'))), Some(KeyAction::NextChat));
    assert_eq!(map_key(key(KeyCode::Char('k'))), Some(KeyAction::PrevChat));
    assert_eq!(map_key(ctrl(KeyCode::Char('n'))), Some(KeyAction::NextChat));
    assert_eq!(map_key(ctrl(KeyCode::Char('p'))), Some(KeyAction::PrevChat));
}

#[test]
fn command_keys_map() {
    assert_eq!(map_key(key(KeyCode::Enter)), Some(KeyAction::Open));
    assert_eq!(map_key(key(KeyCode::Char('/'))), Some(KeyAction::Palette));
    assert_eq!(map_key(ctrl(KeyCode::Char('k'))), Some(KeyAction::Palette));
    assert_eq!(map_key(ctrl(KeyCode::Char('q'))), Some(KeyAction::Quit));
}

#[test]
fn unmapped_keys_are_ignored_never_panic() {
    assert_eq!(map_key(key(KeyCode::F(12))), None);
    assert_eq!(map_key(key(KeyCode::Esc)), None);
    assert_eq!(map_key(ctrl(KeyCode::Char('z'))), None);
}

#[test]
fn scripted_stream_drives_commands_until_quit() {
    let keys = vec![
        key(KeyCode::Char('j')),
        key(KeyCode::Char('j')),
        key(KeyCode::Enter),
        ctrl(KeyCode::Char('q')),
        key(KeyCode::Char('k')),
    ];
    let cmds = run_scripted("chat-1", &keys);
    assert_eq!(
        cmds,
        vec![KeyAction::NextChat, KeyAction::NextChat, KeyAction::Open, KeyAction::Quit,]
    );
}

#[test]
fn insert_key_enters_compose_mode() {
    assert_eq!(map_key(key(KeyCode::Char('i'))), Some(KeyAction::Compose));
}

#[test]
fn modifiers_narrow_plain_bindings() {
    let shift_j = KeyEvent::new(KeyCode::Char('j'), KeyModifiers::shift());
    assert_eq!(map_key(shift_j), None);
    let ctrl_alt_q = KeyEvent::new(KeyCode::Char('q'), KeyModifiers { bits: 0b110 });
    assert_eq!(map_key(ctrl_alt_q), Some(KeyAction::Quit));
    let alt_slash = KeyEvent::new(KeyCode::Char('/'), KeyModifiers::alt());
    assert_eq!(map_key(alt_slash), Some(KeyAction::Palette));
    assert_eq!(map_key(ctrl(KeyCode::Enter)), Some(KeyAction::Open));
    assert_eq!(map_key(ctrl(KeyCode::Char('j'))), None);
}

#[test]
fn scripted_stream_without_quit_keeps_every_bound_key() {
    let keys = vec![key(KeyCode::Esc), key(KeyCode::Char('i')), key(KeyCode::Char('x'))];
    assert_eq!(run_scripted("c", &keys), vec![KeyAction::Compose]);
    assert!(run_scripted("c", &[]).is_empty());
}

#[test]
fn queue_pushes_sanitized_notice_with_cap() {
    let mut q = NoticeQueue::new(2);
    q.push("chat-1", "\x1b[31mhi\x1b[0m");
    q.push("chat-1", "two");
    q.push("chat-2", "three");
    assert_eq!(q.len(), 2);
    assert!(q.texts().iter().all(|t| !t.contains('\x1b')), "sanitized");
    assert_eq!(q.texts()[0], "two");
}

#[test]
fn unread_flags_track_chats_until_read() {
    let mut q = NoticeQueue::new(8);
    q.push("chat-1", "one");
    q.push("chat-2", "two");
    assert!(q.unread("chat-1"));
    assert!(q.unread("chat-2"));
    q.mark_read("chat-1");
    assert!(!q.unread("chat-1"));
    assert!(q.unread("chat-2"));
}

#[test]
fn expired_notices_drop_out() {
    let mut q = NoticeQueue::with_ttl(8, Duration::from_millis(1));
    q.push("chat-1", "old");
    let start = std::time::Instant::now();
    while start.elapsed() < std::time::Duration::from_millis(5) {}
    q.evict_expired();
    assert_eq!(q.len(), 0);
}

#[test]
fn zero_capacity_still_holds_one_notice_and_no_bell_survives() {
    let mut q = NoticeQueue::new(0);
    assert!(q.is_empty());
    q.push("c", "a\x07");
    q.push("c", "b\x07");
    assert_eq!(q.texts(), vec!["b".to_string()]);
    let mut fresh = NoticeQueue::new(4);
    fresh.push("c", "kept");
    fresh.evict_expired();
    assert_eq!(fresh.texts(), vec!["kept".to_string()]);
}

#[test]
fn message_helper_builds_notice_text() {
    assert_eq!(notify_for_message("Alice", "hi"), "Alice: hi");
}

fn sample_view() -> ReadView {
    ReadView {
        title: "rusteams".into(),
        connection: "Connected".into(),
        chats: vec![
            ("chat-1".into(), "Engineering".into(), false),
            ("chat-2".into(), "Random".into(), true),
        ],
        selected_chat: Some("chat-1".into()),
        messages: vec![
            MessageRow { sender: "Alice".into(), time: "10:32".into(), body: "Hello, Teams!".into() },
            MessageRow { sender: "Bob".into(), time: "10:33".into(), body: "hi".into() },
        ],
        status: "Ctrl+Q Quit".into(),
    }
}

#[test]
fn read_panes_show_chats_messages_and_connection() {
    let v = sample_view();
    assert_eq!(header_line(&v), "rusteams  ● Connected");
    assert_eq!(sidebar_lines(&v), vec!["● Engineering".to_string(), "  Random *".to_string()]);
    assert_eq!(
        conversation_text(&v),
        "Alice [10:32]\nHello, Teams!\n\nBob [10:33]\nhi"
    );
}

#[test]
fn empty_panes_render_hints() {
    let mut v = sample_view();
    v.chats.clear();
    v.messages.clear();
    assert_eq!(sidebar_lines(&v), vec!["(no chats)".to_string()]);
    assert_eq!(conversation_text(&v), "(no messages)");
}

#[test]
fn submit_refuses_blank_text_and_rolls_back() {
    assert_eq!(blank_submit("   "), Some(vec![Event::Rejected { reason: "empty body" }]));
    assert_eq!(blank_submit("hi"), None);
    let temp = optimistic_message("chat-1", "he\x1b[1mllo", "temp-1".into(), 42);
    assert_eq!(temp.body, "hello");
    assert_eq!(temp.sender, "me");
    assert!(temp.is_read);
    let mut state = AppState::default();
    state.apply(Command::MessageSent { message: temp });
    let keep = ChatMessage { id: "m1".into(), ..optimistic_message("chat-1", "x", "m1".into(), 1) };
    state.apply(Command::MessageReceived { message: keep });
    state.rollback_message("temp-1");
    let ids: Vec<&str> = state.messages.iter().map(|m| m.id.as_str()).collect();
    assert_eq!(ids, vec!["m1"]);
}

#[test]
fn eviction_keeps_exactly_the_notices_younger_than_the_ttl() {
    let mut q = NoticeQueue::with_ttl(8, Duration::from_secs(10));
    q.push("c1", "one");
    q.push("c2", "two");
    q.push("c3", "three");
    q.evict_with_ages(&vec![10_000_000_000, 9_999_999_999, 25_000_000_000]);
    assert_eq!(q.texts(), vec!["two".to_string()]);
    assert!(q.unread("c1"));
    assert!(q.unread("c3"));
}

#[test]
fn finished_submit_confirms_or_rolls_back() {
    let mut state = AppState::default();
    let temp = optimistic_message("chat-1", "hello", "temp-1".into(), 42);
    state.apply(Command::MessageSent { message: temp });
    let real = ChatMessage { id: "m-1".into(), ..optimistic_message("chat-1", "hello", "x".into(), 43) };
    let events = state.finish_submit("temp-1".into(), Ok(real)).unwrap();
    assert_eq!(events, vec![Event::MessageUpserted { id: "m-1".into() }]);
    assert_eq!(state.messages.len(), 1);
    assert_eq!(state.messages[0].id, "m-1");

    let temp2 = optimistic_message("chat-1", "again", "temp-2".into(), 50);
    state.apply(Command::MessageSent { message: temp2 });
    let err = state.finish_submit("temp-2".into(), Err(AppError::Network("down".into())));
    assert!(matches!(err, Err(AppError::Network(ref m)) if m == "down"));
    let ids: Vec<&str> = state.messages.iter().map(|m| m.id.as_str()).collect();
    assert_eq!(ids, vec!["m-1"]);
}
