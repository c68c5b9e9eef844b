//! Application commands, domain events, and the pure reducer.
//!
//! UI intent enters as [`Command`]; state changes are recorded as [`Event`].
//! [`AppState::apply`] is a pure reducer: same state + command, same result.
use vstd::prelude::*;
use super::app_state::ConnectionState;
use super::connection::{ConnectionEvent, transition, next_state};
use crate::domain::chat::Chat;
use crate::domain::message::{ChatMessage, first_with_id, find_id};
use crate::domain::order::{
    is_stable_order_of, is_ordered, order_messages, lemma_order_deterministic,
    lemma_stable_order_same_elements,
};
use crate::text::{is_blank, is_blank_text};

verus! {

/// User or system intent. Carries no secrets and performs no I/O.
#[derive(Debug, Clone, PartialEq, Eq)]
pub enum Command {
    SelectChat { chat_id: String },
    ChatsLoaded { chats: Vec<Chat> },
    MessagesLoaded { chat_id: String, messages: Vec<ChatMessage> },
    MessageSent { message: ChatMessage },
    MessageReceived { message: ChatMessage },
    /// Server echo for an optimistic send: swap the temp-id message for the
    /// confirmed one, or append when no temp entry exists (e.g. after restart).
    MessageConfirmed { temp_id: String, message: ChatMessage },
    SyncDiffApplied { chat_id: String, changed: Vec<ChatMessage>, deleted: Vec<String> },
    ConnectionEvent(ConnectionEvent),
}

/// Something that happened, recorded for state evolution and tests.
#[derive(Debug, Clone, PartialEq, Eq)]
pub enum Event {
    ChatSelected { chat_id: String },
    ChatsReplaced { count: usize },
    MessagesReplaced { chat_id: String, count: usize },
    MessageAppended { id: String },
    MessageUpserted { id: String },
    MessagesDeleted { ids: Vec<String> },
    ConnectionChanged { state: ConnectionState },
    Rejected { reason: &'static str },
}

/// Central UI/domain state. All evolution goes through [`AppState::apply`].
#[derive(Debug)]
pub struct AppState {
    pub chats: Vec<Chat>,
    pub messages: Vec<ChatMessage>,
    pub selected_chat: Option<String>,
    pub connection: ConnectionState,
}

impl Default for AppState {
    fn default() -> (s: AppState)
        ensures
            s.chats@.len() == 0,
            s.messages@.len() == 0,
            s.selected_chat is None,
            s.connection == ConnectionState::Disconnected,
    {
        AppState {
            chats: Vec::new(),
            messages: Vec::new(),
            selected_chat: None,
            connection: ConnectionState::Disconnected,
        }
    }
}

/// The reason given when a message with a blank body is refused.
pub const EMPTY_BODY: &'static str = "empty body";

/// Messages of other chats than `chat_id`.
pub open spec fn other_chat(chat_id: Seq<char>) -> spec_fn(ChatMessage) -> bool {
    |m: ChatMessage| m.chat_id@ != chat_id
}

/// Messages whose id is not listed in `ids`.
pub open spec fn not_deleted(ids: Seq<String>) -> spec_fn(ChatMessage) -> bool {
    |m: ChatMessage| !(exists|k: int| 0 <= k < ids.len() && (#[trigger] ids[k])@ == m.id@)
}

/// Insert-or-replace by id: the first message with the same id is replaced,
/// otherwise the message is appended.
pub open spec fn upsert_one(msgs: Seq<ChatMessage>, m: ChatMessage) -> (Seq<ChatMessage>, Event) {
    let j = first_with_id(msgs, m.id@);
    if j >= 0 {
        (msgs.update(j, m), Event::MessageUpserted { id: m.id })
    } else {
        (msgs.push(m), Event::MessageAppended { id: m.id })
    }
}

/// Upsert each changed message in turn, recording one event per message.
pub open spec fn upsert_all(msgs: Seq<ChatMessage>, changed: Seq<ChatMessage>) -> (
    Seq<ChatMessage>,
    Seq<Event>,
)
    decreases changed.len(),
{
    if changed.len() == 0 {
        (msgs, Seq::empty())
    } else {
        let (s, e) = upsert_all(msgs, changed.drop_last());
        let (s2, ev) = upsert_one(s, changed.last());
        (s2, e.push(ev))
    }
}

/// Chats, selection and connection are as before.
pub open spec fn keeps_rest(pre: AppState, post: AppState) -> bool {
    &&& post.chats@ == pre.chats@
    &&& post.selected_chat == pre.selected_chat
    &&& post.connection == pre.connection
}

/// What applying `cmd` to `pre` yields: the state `post` and the events.
pub open spec fn apply_result(pre: AppState, cmd: Command, post: AppState, events: Seq<Event>) -> bool {
    match cmd {
        Command::SelectChat { chat_id } => {
            &&& post.selected_chat == Some(chat_id)
            &&& post.chats@ == pre.chats@
            &&& post.messages@ == pre.messages@
            &&& post.connection == pre.connection
            &&& events == seq![Event::ChatSelected { chat_id }]
        },
        Command::ChatsLoaded { chats } => {
            &&& post.chats@ == chats@
            &&& post.messages@ == pre.messages@
            &&& post.selected_chat == pre.selected_chat
            &&& post.connection == pre.connection
            &&& events == seq![Event::ChatsReplaced { count: chats@.len() as usize }]
        },
        Command::MessagesLoaded { chat_id, messages } => {
            &&& keeps_rest(pre, post)
            &&& is_stable_order_of(
                post.messages@,
                pre.messages@.filter(other_chat(chat_id@)) + messages@,
            )
            &&& events == seq![
                Event::MessagesReplaced { chat_id, count: messages@.len() as usize },
            ]
        },
        Command::MessageSent { message } => {
            &&& keeps_rest(pre, post)
            &&& if is_blank_text(message.body@) {
                &&& post.messages@ == pre.messages@
                &&& events == seq![Event::Rejected { reason: EMPTY_BODY }]
            } else {
                &&& is_stable_order_of(post.messages@, pre.messages@.push(message))
                &&& events == seq![Event::MessageAppended { id: message.id }]
            }
        },
        Command::MessageReceived { message } => {
            &&& keeps_rest(pre, post)
            &&& is_stable_order_of(post.messages@, upsert_one(pre.messages@, message).0)
            &&& events == seq![upsert_one(pre.messages@, message).1]
        },
        Command::MessageConfirmed { temp_id, message } => {
            let j = first_with_id(pre.messages@, temp_id@);
            &&& keeps_rest(pre, post)
            &&& if j >= 0 {
                &&& is_stable_order_of(post.messages@, pre.messages@.update(j, message))
                &&& events == seq![Event::MessageUpserted { id: message.id }]
            } else {
                &&& is_stable_order_of(post.messages@, pre.messages@.push(message))
                &&& events == seq![Event::MessageAppended { id: message.id }]
            }
        },
        Command::SyncDiffApplied { chat_id, changed, deleted } => {
            let (upserted, upsert_events) = upsert_all(pre.messages@, changed@);
            &&& keeps_rest(pre, post)
            &&& if deleted@.len() == 0 {
                &&& is_stable_order_of(post.messages@, upserted)
                &&& events == upsert_events
            } else {
                &&& is_stable_order_of(post.messages@, upserted.filter(not_deleted(deleted@)))
                &&& events == upsert_events.push(Event::MessagesDeleted { ids: deleted })
            }
        },
        Command::ConnectionEvent(ev) => {
            &&& post.chats@ == pre.chats@
            &&& post.messages@ == pre.messages@
            &&& post.selected_chat == pre.selected_chat
            &&& post.connection == next_state(pre.connection, ev)
            &&& events == seq![Event::ConnectionChanged { state: post.connection }]
        },
    }
}

impl AppState {
    /// Insert-or-replace one message by id (unordered).
    fn upsert(&mut self, m: ChatMessage) -> (e: Event)
        ensures
            (final(self).messages@, e) == upsert_one(old(self).messages@, m),
            final(self).chats@ == old(self).chats@,
            final(self).selected_chat == old(self).selected_chat,
            final(self).connection == old(self).connection,
    {
        let id = m.id.clone();
        match find_id(&self.messages, &m.id) {
            Some(j) => {
                self.messages.set(j, m);
                Event::MessageUpserted { id }
            },
            None => {
                self.messages.push(m);
                Event::MessageAppended { id }
            },
        }
    }

    fn load_messages(&mut self, chat_id: String, messages: Vec<ChatMessage>) -> (events: Vec<Event>)
        ensures
            keeps_rest(*old(self), *final(self)),
            is_stable_order_of(
                final(self).messages@,
                old(self).messages@.filter(other_chat(chat_id@)) + messages@,
            ),
            events@ == seq![Event::MessagesReplaced { chat_id, count: messages@.len() as usize }],
    {
        let count = messages.len();
        let mut old_msgs: Vec<ChatMessage> = Vec::new();
        std::mem::swap(&mut old_msgs, &mut self.messages);
        let ghost src = old_msgs@;
        let ghost f = other_chat(chat_id@);
        for m in it: old_msgs
            invariant
                it.seq() == src,
                self.messages@ == src.take(it.index() as int).filter(f),
                f == other_chat(chat_id@),
                keeps_rest(*old(self), *self),
        {
            proof {
                assert(src.take(it.index() + 1) =~= src.take(it.index() as int).push(m));
                src.take(it.index() as int).lemma_filter_push(m, f);
            }
            if m.chat_id != chat_id {
                self.messages.push(m);
            }
        }
        proof {
            assert(src.take(src.len() as int) =~= src);
        }
        let ghost kept = self.messages@;
        let ghost added = messages@;
        for m in it: messages
            invariant
                it.seq() == added,
                self.messages@ == kept + added.take(it.index() as int),
                keeps_rest(*old(self), *self),
        {
            proof {
                assert(added.take(it.index() + 1) =~= added.take(it.index() as int).push(m));
            }
            self.messages.push(m);
        }
        proof {
            assert(added.take(added.len() as int) =~= added);
        }
        order_messages(&mut self.messages);
        one(Event::MessagesReplaced { chat_id, count })
    }

    fn confirm_message(&mut self, temp_id: String, message: ChatMessage) -> (events: Vec<Event>)
        ensures
            keeps_rest(*old(self), *final(self)),
            ({
                let j = first_with_id(old(self).messages@, temp_id@);
                if j >= 0 {
                    &&& is_stable_order_of(final(self).messages@, old(self).messages@.update(j, message))
                    &&& events@ == seq![Event::MessageUpserted { id: message.id }]
                } else {
                    &&& is_stable_order_of(final(self).messages@, old(self).messages@.push(message))
                    &&& events@ == seq![Event::MessageAppended { id: message.id }]
                }
            }),
    {
        let id = message.id.clone();
        match find_id(&self.messages, &temp_id) {
            Some(j) => {
                self.messages.set(j, message);
                order_messages(&mut self.messages);
                one(Event::MessageUpserted { id })
            },
            None => {
                self.messages.push(message);
                order_messages(&mut self.messages);
                one(Event::MessageAppended { id })
            },
        }
    }

    fn apply_sync_diff(&mut self, changed: Vec<ChatMessage>, deleted: Vec<String>) -> (events: Vec<Event>)
        ensures
            keeps_rest(*old(self), *final(self)),
            ({
                let (upserted, upsert_events) = upsert_all(old(self).messages@, changed@);
                if deleted@.len() == 0 {
                    &&& is_stable_order_of(final(self).messages@, upserted)
                    &&& events@ == upsert_events
                } else {
                    &&& is_stable_order_of(final(self).messages@, upserted.filter(not_deleted(deleted@)))
                    &&& events@ == upsert_events.push(Event::MessagesDeleted { ids: deleted })
                }
            }),
    {
        let mut events: Vec<Event> = Vec::new();
        let ghost pre = self.messages@;
        let ghost ch = changed@;
        for m in it: changed
            invariant
                it.seq() == ch,
                (self.messages@, events@) == upsert_all(pre, ch.take(it.index() as int)),
                keeps_rest(*old(self), *self),
                pre == old(self).messages@,
        {
            proof {
                assert(ch.take(it.index() + 1).drop_last() =~= ch.take(it.index() as int));
                assert(ch.take(it.index() + 1).last() == m);
            }
            let e = self.upsert(m);
            events.push(e);
        }
        proof {
            assert(ch.take(ch.len() as int) =~= ch);
        }
        let ghost upserted = self.messages@;
        if deleted.len() > 0 {
            let mut old_msgs: Vec<ChatMessage> = Vec::new();
            std::mem::swap(&mut old_msgs, &mut self.messages);
            let ghost src = old_msgs@;
            let ghost f = not_deleted(deleted@);
            for m in it: old_msgs
                invariant
                    it.seq() == src,
                    self.messages@ == src.take(it.index() as int).filter(f),
                    f == not_deleted(deleted@),
                    keeps_rest(*old(self), *self),
            {
                proof {
                    assert(src.take(it.index() + 1) =~= src.take(it.index() as int).push(m));
                    src.take(it.index() as int).lemma_filter_push(m, f);
                }
                if !contains_str(&deleted, &m.id) {
                    self.messages.push(m);
                }
            }
            proof {
                assert(src.take(src.len() as int) =~= src);
            }
            events.push(Event::MessagesDeleted { ids: deleted });
        }
        order_messages(&mut self.messages);
        events
    }

    /// Pure reducer: apply a command, update state, return resulting events.
    pub fn apply(&mut self, cmd: Command) -> (events: Vec<Event>)
        ensures
            apply_result(*old(self), cmd, *final(self), events@),
    {
        match cmd {
            Command::SelectChat { chat_id } => {
                self.selected_chat = Some(chat_id.clone());
                one(Event::ChatSelected { chat_id })
            },
            Command::ChatsLoaded { chats } => {
                let count = chats.len();
                self.chats = chats;
                one(Event::ChatsReplaced { count })
            },
            Command::MessagesLoaded { chat_id, messages } => {
                self.load_messages(chat_id, messages)
            },
            Command::MessageSent { message } => {
                if is_blank(message.body.as_str()) {
                    return one(Event::Rejected { reason: EMPTY_BODY });
                }
                let id = message.id.clone();
                self.messages.push(message);
                order_messages(&mut self.messages);
                one(Event::MessageAppended { id })
            },
            Command::MessageReceived { message } => {
                let e = self.upsert(message);
                order_messages(&mut self.messages);
                one(e)
            },
            Command::MessageConfirmed { temp_id, message } => {
                self.confirm_message(temp_id, message)
            },
            Command::SyncDiffApplied { chat_id, changed, deleted } => {
                self.apply_sync_diff(changed, deleted)
            },
            Command::ConnectionEvent(ev) => {
                self.connection = transition(self.connection, ev);
                one(Event::ConnectionChanged { state: self.connection })
            },
        }
    }
}

/// A single event.
fn one(e: Event) -> (v: Vec<Event>)
    ensures
        v@ == seq![e],
{
    let mut v: Vec<Event> = Vec::new();
    v.push(e);
    proof {
        assert(v@ =~= seq![e]);
    }
    v
}

/// Whether `ids` lists `id`.
pub fn contains_str(ids: &Vec<String>, id: &String) -> (r: bool)
    ensures
        r == (exists|k: int| 0 <= k < ids@.len() && (#[trigger] ids@[k])@ == id@),
{
    let mut k: usize = 0;
    while k < ids.len()
        invariant
            k <= ids@.len(),
            forall|j: int| 0 <= j < k ==> (#[trigger] ids@[j])@ != id@,
        decreases ids.len() - k,
    {
        if ids[k] == *id {
            return true;
        }
        k = k + 1;
    }
    false
}


/// Every command leaves the message list ordered, provided it was ordered
/// before: reducers never expose a half-updated state.
pub proof fn lemma_apply_keeps_messages_ordered(
    pre: AppState,
    cmd: Command,
    post: AppState,
    events: Seq<Event>,
)
    requires
        is_ordered(pre.messages@),
        apply_result(pre, cmd, post, events),
    ensures
        is_ordered(post.messages@),
{
}

/// The reducer is deterministic: the same state and command always give the
/// same state and the same events.
pub proof fn lemma_apply_deterministic(
    pre: AppState,
    cmd: Command,
    post1: AppState,
    events1: Seq<Event>,
    post2: AppState,
    events2: Seq<Event>,
)
    requires
        apply_result(pre, cmd, post1, events1),
        apply_result(pre, cmd, post2, events2),
    ensures
        post1.chats@ == post2.chats@,
        post1.messages@ == post2.messages@,
        post1.selected_chat == post2.selected_chat,
        post1.connection == post2.connection,
        events1 == events2,
{
    match cmd {
        Command::MessagesLoaded { chat_id, messages } => {
            lemma_order_deterministic(
                pre.messages@.filter(other_chat(chat_id@)) + messages@,
                post1.messages@,
                post2.messages@,
            );
        },
        Command::MessageSent { message } => {
            if !is_blank_text(message.body@) {
                lemma_order_deterministic(pre.messages@.push(message), post1.messages@, post2.messages@);
            }
        },
        Command::MessageReceived { message } => {
            lemma_order_deterministic(
                upsert_one(pre.messages@, message).0,
                post1.messages@,
                post2.messages@,
            );
        },
        Command::MessageConfirmed { temp_id, message } => {
            let j = first_with_id(pre.messages@, temp_id@);
            if j >= 0 {
                lemma_order_deterministic(pre.messages@.update(j, message), post1.messages@, post2.messages@);
            } else {
                lemma_order_deterministic(pre.messages@.push(message), post1.messages@, post2.messages@);
            }
        },
        Command::SyncDiffApplied { chat_id, changed, deleted } => {
            let (upserted, _e) = upsert_all(pre.messages@, changed@);
            if deleted@.len() == 0 {
                lemma_order_deterministic(upserted, post1.messages@, post2.messages@);
            } else {
                lemma_order_deterministic(
                    upserted.filter(not_deleted(deleted@)),
                    post1.messages@,
                    post2.messages@,
                );
            }
        },
        _ => {},
    }
}

/// Loading a chat's messages replaces that chat's scope only: afterwards the
/// list holds the loaded messages and every earlier message of other chats,
/// and nothing else.
pub proof fn lemma_messages_loaded_replaces_scope(
    pre: AppState,
    chat_id: String,
    messages: Vec<ChatMessage>,
    post: AppState,
    events: Seq<Event>,
    x: ChatMessage,
)
    requires
        apply_result(pre, Command::MessagesLoaded { chat_id, messages }, post, events),
    ensures
        post.messages@.contains(x) <==> (pre.messages@.contains(x) && x.chat_id@ != chat_id@)
            || messages@.contains(x),
{
    let f = other_chat(chat_id@);
    let kept = pre.messages@.filter(f);
    let all = kept + messages@;
    lemma_stable_order_same_elements(post.messages@, all, x);
    if all.contains(x) {
        let i = choose|i: int| 0 <= i < all.len() && all[i] == x;
        if i < kept.len() {
            assert(kept[i] == x);
            assert(kept.contains(x));
            pre.messages@.lemma_filter_contains_rev(f, x);
            pre.messages@.lemma_filter_pred(f, i);
        } else {
            assert(messages@[i - kept.len()] == x);
        }
    }
    if pre.messages@.contains(x) && x.chat_id@ != chat_id@ {
        let i = choose|i: int| 0 <= i < pre.messages@.len() && pre.messages@[i] == x;
        pre.messages@.lemma_filter_contains(f, i);
        let k = choose|k: int| 0 <= k < kept.len() && kept[k] == x;
        assert(all[k] == x);
    }
    if messages@.contains(x) {
        let i = choose|i: int| 0 <= i < messages@.len() && messages@[i] == x;
        assert(all[kept.len() + i] == x);
    }
}

/// A received message replaces the message with the same id, or adds one:
/// the list grows by one exactly when the id was not yet present.
pub proof fn lemma_received_upserts_by_id(
    pre: AppState,
    message: ChatMessage,
    post: AppState,
    events: Seq<Event>,
)
    requires
        apply_result(pre, Command::MessageReceived { message }, post, events),
    ensures
        post.messages@.len() == pre.messages@.len() + if first_with_id(
            pre.messages@,
            message.id@,
        ) >= 0 {
            0int
        } else {
            1int
        },
        post.messages@.contains(message),
{
    let s = upsert_one(pre.messages@, message).0;
    let j = first_with_id(pre.messages@, message.id@);
    crate::domain::message::lemma_first_with_id(pre.messages@, message.id@);
    if j >= 0 {
        assert(s[j] == message);
    } else {
        assert(s[s.len() - 1] == message);
    }
    lemma_stable_order_same_elements(post.messages@, s, message);
}

} // verus!
