//! Polling-first sync engine: the decisions around each full-fetch poll.
//! Each poll fetches the chat's whole visible history, diffs it against the
//! cached scope and applies the delta through the reducer; duplicates and
//! reordering collapse in the diff and the ordering, and gaps heal on the
//! next complete fetch. The fetching and sleeping belong to the program.
use vstd::prelude::*;
use super::app_state::ConnectionState;
use super::connection::{ConnectionEvent, backoff_delay, backoff_nanos, next_state};
use super::reducer::{AppState, Command, Event, apply_result, not_deleted, upsert_all, upsert_one};
use super::shutdown::Shutdown;
use crate::domain::message::{
    ChatMessage, MessageView, absent_pred, cached_copy, changed_pred, diff_sync, first_with_id,
    has_id, lemma_cached_copy_member, lemma_first_with_id, unique_ids, views,
};
use crate::domain::order::lemma_stable_order_same_elements;
use crate::domain::order::lemma_filter_none;
use crate::domain::order::is_ordered;
use crate::domain::message::lemma_stable_keeps_unique;
use crate::text::{owned, same_text};
use crate::time::{age_nanos, instant_now, Duration};
use crate::error::AppError;

verus! {

/// Per-chat moments of the last successful poll, driving poll scheduling.
pub struct Watermarks {
    last_poll: Vec<(String, std::time::Instant)>,
}

/// The watermark map that a list of `(chat, instant)` entries stands for:
/// the first entry of a chat wins.
pub open spec fn marks_of(e: Seq<(String, std::time::Instant)>) -> Map<Seq<char>, std::time::Instant>
    decreases e.len(),
{
    if e.len() == 0 {
        Map::empty()
    } else {
        marks_of(e.drop_first()).insert(e[0].0@, e[0].1)
    }
}

/// The chats of a list of entries.
spec fn entry_ids(e: Seq<(String, std::time::Instant)>) -> Seq<Seq<char>> {
    e.map_values(|x: (String, std::time::Instant)| x.0@)
}

/// The chats with a watermark are the chats of the entries.
proof fn lemma_marks_dom(e: Seq<(String, std::time::Instant)>)
    ensures
        marks_of(e).dom() == entry_ids(e).to_set(),
    decreases e.len(),
{
    if e.len() > 0 {
        lemma_marks_dom(e.drop_first());
        assert(entry_ids(e.drop_first()) =~= entry_ids(e).drop_first());
        assert forall|k: Seq<char>| #[trigger] entry_ids(e).to_set().contains(k) implies marks_of(e).dom().contains(k) by {
            let j = entry_ids(e).index_of(k);
            if j > 0 {
                assert(entry_ids(e.drop_first())[j - 1] == k);
            }
        }
        assert forall|k: Seq<char>| #[trigger] marks_of(e).dom().contains(k) implies entry_ids(e).to_set().contains(k) by {
            if k != e[0].0@ {
                let j = entry_ids(e.drop_first()).index_of(k);
                assert(entry_ids(e)[j + 1] == k);
            } else {
                assert(entry_ids(e)[0] == k);
            }
        }
        assert(marks_of(e).dom() =~= entry_ids(e).to_set());
    } else {
        assert(entry_ids(e).to_set() =~= Set::empty());
        assert(marks_of(e).dom() =~= Set::empty());
    }
}

/// The first entry of a chat gives its watermark.
proof fn lemma_marks_first(e: Seq<(String, std::time::Instant)>, i: int, k: Seq<char>)
    requires
        0 <= i < e.len(),
        e[i].0@ == k,
        forall|j: int| 0 <= j < i ==> (#[trigger] e[j]).0@ != k,
    ensures
        marks_of(e).contains_key(k),
        marks_of(e)[k] == e[i].1,
    decreases i,
{
    if i > 0 {
        let d = e.drop_first();
        assert forall|j: int| 0 <= j < i - 1 implies (#[trigger] d[j]).0@ != k by {
            assert(d[j] == e[j + 1]);
        }
        lemma_marks_first(d, i - 1, k);
        assert(e[0].0@ != k);
    }
}

/// Replacing the first entry of a chat moves only that chat's watermark.
proof fn lemma_marks_update(e: Seq<(String, std::time::Instant)>, i: int, x: (String, std::time::Instant))
    requires
        0 <= i < e.len(),
        e[i].0@ == x.0@,
        forall|j: int| 0 <= j < i ==> (#[trigger] e[j]).0@ != x.0@,
    ensures
        marks_of(e.update(i, x)) == marks_of(e).insert(x.0@, x.1),
    decreases i,
{
    let d = e.drop_first();
    if i == 0 {
        assert(e.update(0, x).drop_first() =~= d);
        assert(marks_of(e.update(i, x)) =~= marks_of(e).insert(x.0@, x.1));
    } else {
        assert forall|j: int| 0 <= j < i - 1 implies (#[trigger] d[j]).0@ != x.0@ by {
            assert(d[j] == e[j + 1]);
        }
        lemma_marks_update(d, i - 1, x);
        assert(e.update(i, x).drop_first() =~= d.update(i - 1, x));
        assert(e[0].0@ != x.0@);
        assert(marks_of(e.update(i, x)) =~= marks_of(e).insert(x.0@, x.1));
    }
}

/// A chat without an entry has no watermark.
proof fn lemma_marks_absent(e: Seq<(String, std::time::Instant)>, k: Seq<char>)
    requires
        forall|j: int| 0 <= j < e.len() ==> (#[trigger] e[j]).0@ != k,
    ensures
        !marks_of(e).contains_key(k),
    decreases e.len(),
{
    if e.len() > 0 {
        let d = e.drop_first();
        assert forall|j: int| 0 <= j < d.len() implies (#[trigger] d[j]).0@ != k by {
            assert(d[j] == e[j + 1]);
        }
        lemma_marks_absent(d, k);
        assert(e[0].0@ != k);
    }
}

/// Appending an entry of a chat without a watermark adds just that watermark.
proof fn lemma_marks_push(e: Seq<(String, std::time::Instant)>, x: (String, std::time::Instant))
    requires
        forall|j: int| 0 <= j < e.len() ==> (#[trigger] e[j]).0@ != x.0@,
    ensures
        marks_of(e.push(x)) == marks_of(e).insert(x.0@, x.1),
    decreases e.len(),
{
    if e.len() == 0 {
        assert(e.push(x).drop_first() =~= e);
        assert(marks_of(e.push(x)) =~= marks_of(e).insert(x.0@, x.1));
    } else {
        let d = e.drop_first();
        assert forall|j: int| 0 <= j < d.len() implies (#[trigger] d[j]).0@ != x.0@ by {
            assert(d[j] == e[j + 1]);
        }
        lemma_marks_push(d, x);
        assert(e.push(x).drop_first() =~= d.push(x));
        assert(e.push(x)[0] == e[0]);
        assert(e[0].0@ != x.0@);
        assert(marks_of(e.push(x)) =~= marks_of(e).insert(x.0@, x.1));
    }
}

/// Whether a chat whose watermark is `age` nanoseconds old (`None`: never
/// synced) is due under `interval`.
pub open spec fn due_for(age: Option<u128>, interval: nat) -> bool {
    match age {
        None => true,
        Some(a) => a >= interval,
    }
}

/// The scheduling decision for a watermark of age `age` (`None`: never
/// synced): due when never synced, or at least `interval` old.
pub fn due_given_age(age: Option<u128>, interval: Duration) -> (r: bool)
    ensures
        r == due_for(age, interval@),
{
    match age {
        None => true,
        Some(a) => a >= interval.nanos,
    }
}

impl Default for Watermarks {
    fn default() -> (w: Watermarks)
        ensures
            w.synced() == Set::<Seq<char>>::empty(),
            w.marks() == Map::<Seq<char>, std::time::Instant>::empty(),
    {
        let w = Watermarks { last_poll: Vec::new() };
        proof {
            assert(w.synced() =~= Set::<Seq<char>>::empty());
            assert(w.marks() =~= Map::<Seq<char>, std::time::Instant>::empty());
        }
        w
    }
}

impl Watermarks {
    /// The chats with a watermark.
    pub closed spec fn synced(&self) -> Set<Seq<char>> {
        self.last_poll@.map_values(|e: (String, std::time::Instant)| e.0@).to_set()
    }

    /// The moment of each chat's last successful poll.
    pub closed spec fn marks(&self) -> Map<Seq<char>, std::time::Instant> {
        marks_of(self.last_poll@)
    }

    /// The chats with a watermark are the keys of the watermark map.
    pub proof fn lemma_synced_are_marked(&self)
        ensures
            self.synced() == self.marks().dom(),
    {
        lemma_marks_dom(self.last_poll@);
        assert(entry_ids(self.last_poll@) == self.last_poll@.map_values(
            |e: (String, std::time::Instant)| e.0@,
        ));
    }

    fn index_of(&self, chat_id: &str) -> (r: Option<usize>)
        ensures
            match r {
                Some(i) => i < self.last_poll@.len() && self.last_poll@[i as int].0@ == chat_id@
                    && forall|j: int| 0 <= j < i ==> (#[trigger] self.last_poll@[j]).0@ != chat_id@,
                None => !self.synced().contains(chat_id@)
                    && forall|j: int| 0 <= j < self.last_poll@.len() ==> (#[trigger] self.last_poll@[j]).0@ != chat_id@,
            },
    {
        let mut i: usize = 0;
        while i < self.last_poll.len()
            invariant
                i <= self.last_poll@.len(),
                forall|j: int| 0 <= j < i ==> (#[trigger] self.last_poll@[j]).0@ != chat_id@,
            decreases self.last_poll.len() - i,
        {
            if same_text(self.last_poll[i].0.as_str(), chat_id) {
                return Some(i);
            }
            i = i + 1;
        }
        proof {
            let ids = self.last_poll@.map_values(|e: (String, std::time::Instant)| e.0@);
            if ids.contains(chat_id@) {
                let k = ids.index_of(chat_id@);
                assert(self.last_poll@[k].0@ == chat_id@);
            }
        }
        None
    }

    /// Records a successful poll of `chat_id` at `now`.
    pub fn mark_synced_at(&mut self, chat_id: &str, now: std::time::Instant)
        ensures
            final(self).marks() == old(self).marks().insert(chat_id@, now),
            final(self).synced() == old(self).synced().insert(chat_id@),
    {
        let ghost ids0 = self.last_poll@.map_values(|e: (String, std::time::Instant)| e.0@);
        let ghost e0 = self.last_poll@;
        match self.index_of(chat_id) {
            Some(i) => {
                let id = owned(chat_id);
                self.last_poll.set(i, (id, now));
                proof {
                    lemma_marks_update(e0, i as int, (id, now));
                    let ids = self.last_poll@.map_values(|e: (String, std::time::Instant)| e.0@);
                    assert(ids =~= ids0);
                    assert(ids0[i as int] == chat_id@);
                    assert(self.synced() =~= old(self).synced().insert(chat_id@));
                }
            },
            None => {
                let id = owned(chat_id);
                self.last_poll.push((id, now));
                proof {
                    lemma_marks_push(e0, (id, now));
                    let ids = self.last_poll@.map_values(|e: (String, std::time::Instant)| e.0@);
                    assert(ids =~= ids0.push(chat_id@));
                    ids0.lemma_push_to_set_commute(chat_id@);
                }
            },
        }
    }

    /// Records a successful poll of `chat_id` now: the watermark of
    /// `chat_id` becomes the moment read from the clock, and no other moves.
    pub fn mark_synced(&mut self, chat_id: &str)
        ensures
            final(self).synced() == old(self).synced().insert(chat_id@),
            exists|now: std::time::Instant|
                final(self).marks() == #[trigger] old(self).marks().insert(chat_id@, now),
    {
        let now = instant_now();
        self.mark_synced_at(chat_id, now);
    }

    /// True when `chat_id` never synced, or its watermark is at least
    /// `interval` old: the age of the chat's watermark is read from the
    /// clock and handed to `due_given_age`.
    pub fn is_due(&self, chat_id: &str, interval: Duration) -> (r: bool)
        ensures
            exists|age: Option<u128>|
                (age is Some <==> self.marks().contains_key(chat_id@)) && r == #[trigger] due_for(
                    age,
                    interval@,
                ),
            !self.synced().contains(chat_id@) ==> r,
            interval@ == 0 ==> r,
    {
        let age = match self.index_of(chat_id) {
            Some(i) => {
                proof {
                    lemma_marks_first(self.last_poll@, i as int, chat_id@);
                    let ids = self.last_poll@.map_values(|e: (String, std::time::Instant)| e.0@);
                    assert(ids[i as int] == chat_id@);
                    assert(ids.contains(chat_id@));
                }
                Some(age_nanos(&self.last_poll[i].1))
            },
            None => {
                proof {
                    lemma_marks_absent(self.last_poll@, chat_id@);
                }
                None
            },
        };
        let r = due_given_age(age, interval);
        proof {
            assert(due_for(age, interval@) == r);
        }
        r
    }

    /// The chat a scheduler tick polls: the selected chat, when its
    /// watermark is due (the age of the watermark is read from the clock).
    pub fn chat_to_poll(&self, selected: &Option<String>, interval: Duration) -> (r: Option<String>)
        ensures
            match *selected {
                None => r is None,
                Some(c) => {
                    &&& (r matches Some(x) ==> x@ == c@)
                    &&& (!self.synced().contains(c@) ==> r is Some)
                    &&& (interval@ == 0 ==> r is Some)
                    &&& exists|age: Option<u128>|
                        (age is Some <==> self.marks().contains_key(c@)) && (r is Some)
                            == #[trigger] due_for(age, interval@)
                },
            },
    {
        match selected {
            None => None,
            Some(c) => {
                if self.is_due(c.as_str(), interval) {
                    Some(owned(c.as_str()))
                } else {
                    None
                }
            },
        }
    }

    /// Records the outcome of a poll of `chat_id`: only a successful poll
    /// moves the chat's watermark (to the moment read from the clock); the
    /// outcome itself is handed back unchanged.
    pub fn record_poll(&mut self, chat_id: &str, outcome: Result<Vec<Event>, AppError>) -> (r: Result<
        Vec<Event>,
        AppError,
    >)
        ensures
            r == outcome,
            outcome is Ok ==> final(self).synced() == old(self).synced().insert(chat_id@) && exists|
                now: std::time::Instant,
            | final(self).marks() == #[trigger] old(self).marks().insert(chat_id@, now),
            outcome is Err ==> final(self).synced() == old(self).synced() && final(self).marks()
                == old(self).marks(),
    {
        if outcome.is_ok() {
            self.mark_synced(chat_id);
        }
        outcome
    }

    /// Forgets every watermark so each chat re-baselines on the next tick.
    pub fn reset(&mut self)
        ensures
            final(self).synced() == Set::<Seq<char>>::empty(),
            final(self).marks() == Map::<Seq<char>, std::time::Instant>::empty(),
    {
        self.last_poll = Vec::new();
        proof {
            assert(self.synced() =~= Set::<Seq<char>>::empty());
            assert(self.marks() =~= Map::<Seq<char>, std::time::Instant>::empty());
        }
    }
}
/// Polls one provider into shared app state.
pub struct Poller<P> {
    provider: P,
    shutdown: Shutdown,
}

impl<P> Poller<P> {
    pub fn new(provider: P, shutdown: Shutdown) -> (p: Poller<P>)
        ensures
            p.provider_view() == provider,
    {
        Poller { provider, shutdown }
    }

    /// The backing provider.
    pub closed spec fn provider_view(&self) -> P {
        self.provider
    }

    /// The backing provider (sweeps share the same source of truth).
    pub fn provider(&self) -> (r: &P)
        ensures
            *r == self.provider_view(),
    {
        &self.provider
    }

    /// True once the shared shutdown fired.
    pub fn shutdown_triggered(&self) -> bool {
        self.shutdown.is_triggered()
    }
}

/// Messages of the chat `chat_id`.
pub open spec fn in_chat(chat_id: Seq<char>) -> spec_fn(ChatMessage) -> bool {
    |m: ChatMessage| m.chat_id@ == chat_id
}

/// Copies of the cached messages of `chat_id`, in order.
fn cached_scope(msgs: &Vec<ChatMessage>, chat_id: &str) -> (r: Vec<ChatMessage>)
    ensures
        views(r@) == views(msgs@.filter(in_chat(chat_id@))),
{
    let mut out: Vec<ChatMessage> = Vec::new();
    let mut i: usize = 0;
    while i < msgs.len()
        invariant
            i <= msgs@.len(),
            views(out@) == views(msgs@.take(i as int).filter(in_chat(chat_id@))),
        decreases msgs.len() - i,
    {
        proof {
            assert(msgs@.take(i + 1) =~= msgs@.take(i as int).push(msgs@[i as int]));
            msgs@.take(i as int).lemma_filter_push(msgs@[i as int], in_chat(chat_id@));
        }
        if same_text(msgs[i].chat_id.as_str(), chat_id) {
            let c = msgs[i].duplicate();
            proof {
                let f = msgs@.take(i as int).filter(in_chat(chat_id@));
                assert(views(out@.push(c)) =~= views(out@).push(c@));
                assert(views(f.push(msgs@[i as int])) =~= views(f).push(msgs@[i as int]@));
            }
            out.push(c);
        }
        i = i + 1;
    }
    proof {
        assert(msgs@.take(msgs@.len() as int) =~= msgs@);
    }
    out
}

/// How one tick of a supervised loop ended.
#[derive(Debug, Clone, Copy, PartialEq, Eq, Structural)]
pub enum TickOutcome {
    Succeeded,
    ShutDown,
    Failed,
}

/// What a supervised loop does after a tick.
#[derive(Debug, Clone, Copy, PartialEq, Eq, Structural)]
pub enum TickAction {
    /// Stop: shutdown fired.
    Stop,
    /// Go on with this count of consecutive failures, first sleeping the
    /// backoff when there is one, then the tick interval.
    Continue { failures: u32, backoff: Option<Duration> },
}

impl<P> Supervisor<P> {
    /// The decision after a tick with `failures` consecutive failures before
    /// it: success resets the count; shutdown stops; a failure counts and
    /// backs off exponentially, capped at the tick interval, without jitter.
    pub fn after_tick(&self, failures: u32, outcome: TickOutcome) -> (a: TickAction)
        requires
            self.backoff_base.wf(),
            self.interval.wf(),
            outcome == TickOutcome::Failed ==> failures < u32::MAX,
        ensures
            match outcome {
                TickOutcome::Succeeded => a == TickAction::Continue { failures: 0, backoff: None },
                TickOutcome::ShutDown => a == TickAction::Stop,
                TickOutcome::Failed => a matches TickAction::Continue { failures: n, backoff: Some(d) }
                    && n == failures + 1 && d@ == backoff_nanos(
                    (failures + 1) as u32,
                    self.backoff_base@,
                    self.interval@,
                    0,
                ),
            },
    {
        match outcome {
            TickOutcome::Succeeded => TickAction::Continue { failures: 0, backoff: None },
            TickOutcome::ShutDown => TickAction::Stop,
            TickOutcome::Failed => {
                let n = failures + 1;
                let d = backoff_delay(n, self.backoff_base, self.interval, 0);
                TickAction::Continue { failures: n, backoff: Some(d) }
            },
        }
    }
}

/// A poll of `chat_id` that fetched `fetched` took `pre` to `post` with
/// `events`, through the cached scope `cached` and the diff (`changed`,
/// `deleted`).
pub open spec fn poll_outcome(
    pre: AppState,
    post: AppState,
    chat_id: Seq<char>,
    fetched: Seq<ChatMessage>,
    events: Seq<Event>,
    cached: Seq<ChatMessage>,
    changed: Vec<ChatMessage>,
    deleted: Vec<String>,
    cid: String,
) -> bool {
    &&& views(cached) == views(pre.messages@.filter(in_chat(chat_id)))
    &&& views(changed@) == views(fetched.filter(changed_pred(cached)))
    &&& deleted@.map_values(|s: String| s@) == cached.filter(absent_pred(fetched)).map_values(
        |c: ChatMessage| c.id@,
    )
    &&& cid@ == chat_id
    &&& if changed@.len() == 0 && deleted@.len() == 0 {
        &&& events.len() == 0
        &&& post.messages@ == pre.messages@
        &&& post.chats@ == pre.chats@
        &&& post.selected_chat == pre.selected_chat
        &&& post.connection == pre.connection
    } else {
        apply_result(
            pre,
            Command::SyncDiffApplied { chat_id: cid, changed, deleted },
            post,
            events,
        )
    }
}

/// Some cached scope and diff make `pre` to `post` with `events` a poll of
/// `chat_id` that fetched `fetched`.
pub open spec fn polled(
    pre: AppState,
    post: AppState,
    chat_id: Seq<char>,
    fetched: Seq<ChatMessage>,
    events: Seq<Event>,
) -> bool {
    exists|cached: Seq<ChatMessage>, changed: Vec<ChatMessage>, deleted: Vec<String>, cid: String|
        #[trigger] poll_outcome(pre, post, chat_id, fetched, events, cached, changed, deleted, cid)
}

impl AppState {
    /// Finishes a poll of `chat_id` once the fetch came back: a page is
    /// applied as `apply_poll` does; a failed fetch passes its error on and
    /// leaves the state as it was.
    pub fn finish_poll(&mut self, chat_id: &str, fetched: Result<Vec<ChatMessage>, AppError>) -> (r:
        Result<Vec<Event>, AppError>)
        ensures
            fetched matches Ok(f) ==> (r matches Ok(ev) && polled(
                *old(self),
                *final(self),
                chat_id@,
                f@,
                ev@,
            )),
            fetched matches Err(e) ==> r == Err::<Vec<Event>, AppError>(e) && *final(self)
                == *old(self),
    {
        match fetched {
            Ok(f) => {
                let page = f.as_slice();
                let ghost pre = *self;
                let ev = self.apply_poll(chat_id, page);
                proof {
                    assert(page@ == f@);
                    assert(polled(pre, *self, chat_id@, f@, ev@));
                }
                Ok(ev)
            },
            Err(e) => Err(e),
        }
    }

    /// Applies one full fetch of `chat_id`: diffs it against the cached scope
    /// (deletions inferred, since the fetch is complete) and applies the delta;
    /// an already converged chat leaves the state as it is, with no events.
    pub fn apply_poll(&mut self, chat_id: &str, fetched: &[ChatMessage]) -> (events: Vec<Event>)
        ensures
            exists|
                cached: Seq<ChatMessage>,
                changed: Vec<ChatMessage>,
                deleted: Vec<String>,
                cid: String,
            |
                #[trigger] poll_outcome(
                    *old(self),
                    *final(self),
                    chat_id@,
                    fetched@,
                    events@,
                    cached,
                    changed,
                    deleted,
                    cid,
                ),
    {
        let cached = cached_scope(&self.messages, chat_id);
        let (changed, deleted) = diff_sync(cached.as_slice(), fetched, true);
        let cid = owned(chat_id);
        let ghost g_changed = changed;
        let ghost g_deleted = deleted;
        let ghost g_cid = cid;
        if changed.len() == 0 && deleted.len() == 0 {
            let events: Vec<Event> = Vec::new();
            proof {
                assert(poll_outcome(
                    *old(self),
                    *self,
                    chat_id@,
                    fetched@,
                    events@,
                    cached@,
                    g_changed,
                    g_deleted,
                    g_cid,
                ));
            }
            return events;
        }
        let events = self.apply(Command::SyncDiffApplied { chat_id: cid, changed, deleted });
        proof {
            assert(poll_outcome(
                *old(self),
                *self,
                chat_id@,
                fetched@,
                events@,
                cached@,
                g_changed,
                g_deleted,
                g_cid,
            ));
        }
        events
    }
}

/// Binds a connection event to sync state: drives the reducer and, when the
/// machine lands on `Reconnecting`, clears the watermarks so the next ticks
/// re-baseline every chat with complete fetches.
pub fn note_connection(state: &mut AppState, marks: &mut Watermarks, ev: ConnectionEvent) -> (events: Vec<Event>)
    ensures
        apply_result(*old(state), Command::ConnectionEvent(ev), *final(state), events@),
        next_state(old(state).connection, ev) == ConnectionState::Reconnecting ==> final(marks).synced()
            == Set::<Seq<char>>::empty(),
        next_state(old(state).connection, ev) != ConnectionState::Reconnecting ==> final(marks).synced()
            == old(marks).synced() && final(marks).marks() == old(marks).marks(),
{
    let events = state.apply(Command::ConnectionEvent(ev));
    if state.connection == ConnectionState::Reconnecting {
        marks.reset();
    }
    events
}

/// Timer-driven sync loop state: the poller, the watermarks and the interval.
pub struct SyncLoop<P> {
    pub poller: Poller<P>,
    pub marks: Watermarks,
    pub interval: Duration,
}

impl<P> SyncLoop<P> {
    pub fn new(provider: P, shutdown: Shutdown, interval: Duration) -> (s: SyncLoop<P>)
        ensures
            s.poller.provider_view() == provider,
            s.marks.synced() == Set::<Seq<char>>::empty(),
            s.interval == interval,
    {
        SyncLoop { poller: Poller::new(provider, shutdown), marks: Watermarks::default(), interval }
    }
}

/// Supervised sync loop state: a sync loop, the shutdown signal, the tick
/// interval and the base of the failure backoff.
pub struct Supervisor<P> {
    pub sync_loop: SyncLoop<P>,
    pub shutdown: Shutdown,
    pub interval: Duration,
    pub backoff_base: Duration,
}

impl<P> Supervisor<P> {
    pub fn new(provider: P, shutdown: Shutdown, interval: Duration, backoff_base: Duration) -> (s:
        Supervisor<P>)
        ensures
            s.sync_loop.poller.provider_view() == provider,
            s.sync_loop.marks.synced() == Set::<Seq<char>>::empty(),
            s.sync_loop.interval == interval,
            s.interval == interval,
            s.backoff_base == backoff_base,
    {
        Supervisor {
            sync_loop: SyncLoop::new(provider, shutdown.clone(), interval),
            shutdown,
            interval,
            backoff_base,
        }
    }
}

proof fn lemma_cached_copy_unique(c: Seq<ChatMessage>, k: int)
    requires
        0 <= k < c.len(),
        unique_ids(c),
    ensures
        cached_copy(c, c[k].id@) == Some(c[k]),
    decreases c.len(),
{
    if k < c.len() - 1 {
        let init = c.drop_last();
        assert(c[c.len() - 1].id@ != c[k].id@);
        assert(unique_ids(init)) by {
            assert forall|i: int, j: int| 0 <= i < j < init.len() implies (#[trigger] init[i]).id@
                != (#[trigger] init[j]).id@ by {
                assert(init[i] == c[i] && init[j] == c[j]);
            }
        }
        assert(init[k] == c[k]);
        lemma_cached_copy_unique(init, k);
    }
}

/// Law: a poll whose page holds exactly the messages of the cached scope of
/// its chat, in any order and with any repeats (no two cached messages of it
/// sharing an id), changes nothing and reports nothing: the steady state is
/// silent.
pub proof fn lemma_unchanged_poll_is_silent(
    pre: AppState,
    post: AppState,
    chat_id: Seq<char>,
    fetched: Seq<ChatMessage>,
    events: Seq<Event>,
    cached: Seq<ChatMessage>,
    changed: Vec<ChatMessage>,
    deleted: Vec<String>,
    cid: String,
)
    requires
        poll_outcome(pre, post, chat_id, fetched, events, cached, changed, deleted, cid),
        views(fetched).to_set() == views(pre.messages@.filter(in_chat(chat_id))).to_set(),
        unique_ids(pre.messages@.filter(in_chat(chat_id))),
    ensures
        events.len() == 0,
        post.messages@ == pre.messages@,
        post.chats@ == pre.chats@,
        post.selected_chat == pre.selected_chat,
        post.connection == pre.connection,
{
    let scope = pre.messages@.filter(in_chat(chat_id));
    assert(views(cached).len() == views(scope).len());
    assert forall|i: int| 0 <= i < cached.len() implies #[trigger] cached[i]@ == scope[i]@ by {
        assert(views(cached)[i] == views(scope)[i]);
    }
    assert(unique_ids(cached)) by {
        assert forall|i: int, j: int| 0 <= i < j < cached.len() implies (#[trigger] cached[i]).id@
            != (#[trigger] cached[j]).id@ by {
            assert(cached[i]@ == scope[i]@ && cached[j]@ == scope[j]@);
        }
    }
    assert forall|i: int| 0 <= i < fetched.len() implies !changed_pred(cached)(#[trigger] fetched[i]) by {
        assert(views(fetched)[i] == fetched[i]@);
        assert(views(fetched).contains(fetched[i]@));
        assert(views(fetched).to_set().contains(fetched[i]@));
        assert(views(scope).contains(fetched[i]@));
        let k = choose|k: int| 0 <= k < views(scope).len() && views(scope)[k] == fetched[i]@;
        assert(scope[k]@ == fetched[i]@);
        assert(cached[k]@ == fetched[i]@);
        lemma_cached_copy_unique(cached, k);
    }
    lemma_filter_none(fetched, changed_pred(cached));
    assert(views(changed@).len() == 0);
    assert forall|k: int| 0 <= k < cached.len() implies !absent_pred(fetched)(#[trigger] cached[k]) by {
        assert(views(scope)[k] == scope[k]@);
        assert(views(scope).contains(scope[k]@));
        assert(views(scope).to_set().contains(scope[k]@));
        assert(views(fetched).contains(scope[k]@));
        let i = choose|i: int| 0 <= i < views(fetched).len() && views(fetched)[i] == scope[k]@;
        assert(fetched[i]@ == cached[k]@);
        assert(fetched[i].id@ == cached[k].id@);
        assert(has_id(fetched, cached[k].id@));
    }
    lemma_filter_none(cached, absent_pred(fetched));
    assert(deleted@.map_values(|s: String| s@).len() == 0);
}

/// A filtered list of messages with distinct ids keeps them distinct.
proof fn lemma_filter_unique(s: Seq<ChatMessage>, p: spec_fn(ChatMessage) -> bool)
    requires
        unique_ids(s),
    ensures
        unique_ids(s.filter(p)),
    decreases s.len(),
{
    reveal(Seq::filter);
    if s.len() > 0 {
        let init = s.drop_last();
        assert(unique_ids(init)) by {
            assert forall|i: int, j: int| 0 <= i < j < init.len() implies (#[trigger] init[i]).id@
                != (#[trigger] init[j]).id@ by {
                assert(init[i] == s[i] && init[j] == s[j]);
            }
        }
        lemma_filter_unique(init, p);
        let f = init.filter(p);
        if p(s.last()) {
            let r = f.push(s.last());
            assert forall|i: int, j: int| 0 <= i < j < r.len() implies (#[trigger] r[i]).id@
                != (#[trigger] r[j]).id@ by {
                if j == r.len() - 1 {
                    assert(f.contains(f[i]));
                    init.lemma_filter_contains_rev(p, f[i]);
                    let k = choose|k: int| 0 <= k < init.len() && init[k] == f[i];
                    assert(s[k] == f[i]);
                    assert(s[k].id@ != s[s.len() - 1].id@);
                } else {
                    assert(r[i] == f[i] && r[j] == f[j]);
                }
            }
        }
    }
}

/// Messages whose views agree share their ids.
proof fn lemma_views_unique(a: Seq<ChatMessage>, b: Seq<ChatMessage>)
    requires
        views(a) == views(b),
        unique_ids(b),
    ensures
        unique_ids(a),
{
    assert(views(a).len() == a.len());
    assert(views(b).len() == b.len());
    assert forall|i: int, j: int| 0 <= i < j < a.len() implies (#[trigger] a[i]).id@
        != (#[trigger] a[j]).id@ by {
        assert(views(a)[i] == a[i]@);
        assert(views(b)[i] == b[i]@);
        assert(views(a)[j] == a[j]@);
        assert(views(b)[j] == b[j]@);
        assert(b[i].id@ != b[j].id@);
    }
}

/// Copies of a message that share an id are alike: same value throughout.
pub open spec fn copies_agree(s: Seq<ChatMessage>) -> bool {
    forall|i: int, j: int|
        0 <= i < s.len() && 0 <= j < s.len() && (#[trigger] s[i]).id@ == (#[trigger] s[j]).id@
            ==> s[i]@ == s[j]@
}

/// A filtered page keeps its copies alike.
proof fn lemma_filter_copies_agree(s: Seq<ChatMessage>, p: spec_fn(ChatMessage) -> bool)
    requires
        copies_agree(s),
    ensures
        copies_agree(s.filter(p)),
{
    let f = s.filter(p);
    assert forall|i: int, j: int|
        0 <= i < f.len() && 0 <= j < f.len() && (#[trigger] f[i]).id@ == (#[trigger] f[j]).id@
            implies f[i]@ == f[j]@ by {
        assert(f.contains(f[i]));
        assert(f.contains(f[j]));
        lemma_filter_member(s, p, f[i]);
        lemma_filter_member(s, p, f[j]);
        let a = choose|a: int| 0 <= a < s.len() && s[a] == f[i];
        let b = choose|b: int| 0 <= b < s.len() && s[b] == f[j];
        assert(s[a].id@ == s[b].id@);
    }
}

/// Sequences with the same views agree on their copies alike.
proof fn lemma_views_copies_agree(a: Seq<ChatMessage>, b: Seq<ChatMessage>)
    requires
        views(a) == views(b),
        copies_agree(b),
    ensures
        copies_agree(a),
{
    assert(views(a).len() == a.len());
    assert(views(b).len() == b.len());
    assert forall|i: int, j: int|
        0 <= i < a.len() && 0 <= j < a.len() && (#[trigger] a[i]).id@ == (#[trigger] a[j]).id@
            implies a[i]@ == a[j]@ by {
        assert(views(a)[i] == a[i]@ && views(b)[i] == b[i]@);
        assert(views(a)[j] == a[j]@ && views(b)[j] == b[j]@);
        assert(b[i].id@ == b[j].id@);
    }
}

/// Upserting `ch` into `pre` (distinct ids in `pre`, copies of one id alike
/// in `ch`) keeps ids distinct; every message of the result comes from `ch`,
/// or from `pre` with an id that `ch` does not carry; every message of `pre`
/// with such an id stays; and every message of `ch` is there by value.
proof fn lemma_upsert_all_members(pre: Seq<ChatMessage>, ch: Seq<ChatMessage>)
    requires
        unique_ids(pre),
        copies_agree(ch),
    ensures
        unique_ids(upsert_all(pre, ch).0),
        forall|m: ChatMessage|
            #[trigger] upsert_all(pre, ch).0.contains(m) ==> (ch.contains(m) || (pre.contains(m)
                && !has_id(ch, m.id@))),
        forall|m: ChatMessage|
            pre.contains(m) && !has_id(ch, m.id@) ==> #[trigger] upsert_all(pre, ch).0.contains(m),
        forall|q: int| 0 <= q < ch.len() ==> views(upsert_all(pre, ch).0).contains(#[trigger] ch[q]@),
    decreases ch.len(),
{
    let u = upsert_all(pre, ch).0;
    if ch.len() == 0 {
        assert forall|m: ChatMessage| !has_id(ch, m.id@) by {}
    } else {
        let init = ch.drop_last();
        let x = ch.last();
        assert(copies_agree(init)) by {
            assert forall|i: int, j: int|
                0 <= i < init.len() && 0 <= j < init.len() && (#[trigger] init[i]).id@
                    == (#[trigger] init[j]).id@ implies init[i]@ == init[j]@ by {
                assert(init[i] == ch[i] && init[j] == ch[j]);
            }
        }
        lemma_upsert_all_members(pre, init);
        let s = upsert_all(pre, init).0;
        let s2 = upsert_one(s, x).0;
        assert(u == s2);
        lemma_first_with_id(s, x.id@);
        let j = first_with_id(s, x.id@);
        assert forall|m: ChatMessage| has_id(ch, m.id@) <==> (has_id(init, m.id@) || m.id@ == x.id@) by {
            if has_id(ch, m.id@) {
                let k = choose|k: int| 0 <= k < ch.len() && (#[trigger] ch[k]).id@ == m.id@;
                if k < ch.len() - 1 {
                    assert(init[k] == ch[k]);
                }
            }
            if has_id(init, m.id@) {
                let k = choose|k: int| 0 <= k < init.len() && (#[trigger] init[k]).id@ == m.id@;
                assert(ch[k] == init[k]);
            }
            if m.id@ == x.id@ {
                assert(ch[ch.len() - 1].id@ == m.id@);
            }
        }
        assert forall|m: ChatMessage| ch.contains(m) <==> (init.contains(m) || m == x) by {
            if ch.contains(m) {
                let k = choose|k: int| 0 <= k < ch.len() && ch[k] == m;
                if k < ch.len() - 1 {
                    assert(init[k] == ch[k]);
                }
            }
            if init.contains(m) {
                let k = choose|k: int| 0 <= k < init.len() && init[k] == m;
                assert(ch[k] == init[k]);
            }
            if m == x {
                assert(ch[ch.len() - 1] == m);
            }
        }
        // Which messages of `s` stay: exactly those whose id is not `x`'s.
        assert(s2.len() >= s.len());
        assert forall|k: int| 0 <= k < s.len() && s[k].id@ != x.id@ implies s2[k] == s[k] by {
            if j >= 0 {
                assert(k != j);
            }
        }
        if j >= 0 {
            assert(s2 == s.update(j, x));
            assert forall|m: ChatMessage| #[trigger] s2.contains(m) implies (m == x || (s.contains(m)
                && m.id@ != x.id@)) by {
                let k = choose|k: int| 0 <= k < s2.len() && s2[k] == m;
                if k != j {
                    assert(s[k] == m);
                    assert(s[k].id@ != s[j].id@);
                }
            }
            assert(s2[j] == x);
            assert forall|a: int, b: int| 0 <= a < b < s2.len() implies (#[trigger] s2[a]).id@
                != (#[trigger] s2[b]).id@ by {
                if a == j {
                    assert(s2[b] == s[b]);
                    assert(s[a].id@ != s[b].id@);
                } else if b == j {
                    assert(s2[a] == s[a]);
                    assert(s[a].id@ != s[b].id@);
                } else {
                    assert(s2[a] == s[a] && s2[b] == s[b]);
                }
            }
        } else {
            assert(s2 == s.push(x));
            assert forall|m: ChatMessage| #[trigger] s2.contains(m) implies (m == x || (s.contains(m)
                && m.id@ != x.id@)) by {
                let k = choose|k: int| 0 <= k < s2.len() && s2[k] == m;
                if k < s.len() {
                    assert(s[k] == m);
                }
            }
            assert(s2[s.len() as int] == x);
            assert forall|a: int, b: int| 0 <= a < b < s2.len() implies (#[trigger] s2[a]).id@
                != (#[trigger] s2[b]).id@ by {
                if b == s.len() {
                    assert(s2[a] == s[a]);
                    assert(s[a].id@ != x.id@);
                } else {
                    assert(s2[a] == s[a] && s2[b] == s[b]);
                }
            }
        }
        assert(s2.contains(x));
        assert forall|m: ChatMessage| #[trigger] s2.contains(m) implies (ch.contains(m) || (
            pre.contains(m) && !has_id(ch, m.id@))) by {
            if m != x {
                assert(s.contains(m));
            }
        }
        assert forall|m: ChatMessage| pre.contains(m) && !has_id(ch, m.id@) implies #[trigger] s2.contains(m) by {
            assert(s.contains(m));
            let k = choose|k: int| 0 <= k < s.len() && s[k] == m;
            assert(s2[k] == s[k]);
        }
        assert forall|q: int| 0 <= q < ch.len() implies views(s2).contains(#[trigger] ch[q]@) by {
            if q == ch.len() - 1 {
                let k = if j >= 0 { j } else { s.len() as int };
                assert(views(s2)[k] == s2[k]@);
            } else {
                assert(ch[q] == init[q]);
                assert(views(s).contains(init[q]@));
                let k = choose|k: int| 0 <= k < views(s).len() && views(s)[k] == init[q]@;
                assert(views(s)[k] == s[k]@);
                if s[k].id@ != x.id@ {
                    assert(s2[k] == s[k]);
                    assert(views(s2)[k] == s2[k]@);
                } else {
                    assert(ch[q].id@ == ch[ch.len() - 1].id@);
                    let k2 = if j >= 0 { j } else { s.len() as int };
                    assert(views(s2)[k2] == s2[k2]@);
                }
            }
        }
    }
}

proof fn lemma_cached_copy_id(cached: Seq<ChatMessage>, id: Seq<char>)
    ensures
        cached_copy(cached, id) matches Some(c) ==> c.id@ == id,
    decreases cached.len(),
{
    if cached.len() > 0 && cached.last().id@ != id {
        lemma_cached_copy_id(cached.drop_last(), id);
    }
}

/// `s` holds `m`, so its views hold `m`'s view.
proof fn lemma_member_view(s: Seq<ChatMessage>, m: ChatMessage)
    requires
        s.contains(m),
    ensures
        views(s).contains(m@),
{
    let k = choose|k: int| 0 <= k < s.len() && s[k] == m;
    assert(views(s)[k] == m@);
}

/// A message of `s` satisfying `p` is a message of `s.filter(p)`, and back.
proof fn lemma_filter_member(s: Seq<ChatMessage>, p: spec_fn(ChatMessage) -> bool, m: ChatMessage)
    ensures
        s.filter(p).contains(m) <==> s.contains(m) && p(m),
{
    if s.contains(m) && p(m) {
        let k = choose|k: int| 0 <= k < s.len() && s[k] == m;
        s.lemma_filter_contains(p, k);
    }
    if s.filter(p).contains(m) {
        s.lemma_filter_contains_rev(p, m);
        let k = choose|k: int| 0 <= k < s.filter(p).len() && s.filter(p)[k] == m;
        s.lemma_filter_pred(p, k);
    }
}

/// A fetched id is never among the deleted ones.
proof fn lemma_fetched_not_deleted(
    cached: Seq<ChatMessage>,
    fetched: Seq<ChatMessage>,
    deleted: Seq<String>,
    m: ChatMessage,
)
    requires
        deleted.map_values(|s: String| s@) == cached.filter(absent_pred(fetched)).map_values(
            |c: ChatMessage| c.id@,
        ),
        has_id(fetched, m.id@),
    ensures
        not_deleted(deleted)(m),
{
    let gone = cached.filter(absent_pred(fetched));
    assert(deleted.map_values(|s: String| s@).len() == deleted.len());
    assert(gone.map_values(|c: ChatMessage| c.id@).len() == gone.len());
    assert forall|k: int| 0 <= k < deleted.len() implies (#[trigger] deleted[k])@ != m.id@ by {
        assert(deleted.map_values(|s: String| s@)[k] == deleted[k]@);
        assert(gone.map_values(|c: ChatMessage| c.id@)[k] == gone[k].id@);
        cached.lemma_filter_pred(absent_pred(fetched), k);
    }
}

/// A cached message whose id the page lacks is among the deleted ones.
proof fn lemma_absent_is_deleted(
    cached: Seq<ChatMessage>,
    fetched: Seq<ChatMessage>,
    deleted: Seq<String>,
    c: ChatMessage,
)
    requires
        deleted.map_values(|s: String| s@) == cached.filter(absent_pred(fetched)).map_values(
            |c: ChatMessage| c.id@,
        ),
        cached.contains(c),
        !has_id(fetched, c.id@),
    ensures
        deleted.len() > 0,
        !not_deleted(deleted)(c),
{
    let gone = cached.filter(absent_pred(fetched));
    lemma_filter_member(cached, absent_pred(fetched), c);
    let k = choose|k: int| 0 <= k < gone.len() && gone[k] == c;
    assert(gone.map_values(|x: ChatMessage| x.id@)[k] == c.id@);
    assert(deleted.map_values(|s: String| s@).len() == deleted.len());
    assert(deleted.map_values(|s: String| s@)[k] == deleted[k]@);
}

/// Law: a complete poll converges the chat to the fetched page: afterwards
/// the chat's messages are, by value, exactly the page's, once each (ids stay
/// distinct), whatever the cached scope held before, and an ordered state
/// stays ordered. The page may come in any order and repeat copies of a
/// message, as long as copies sharing an id are alike; message ids are
/// distinct in the state, and the page holds only messages of the polled
/// chat.
pub proof fn lemma_poll_converges(
    pre: AppState,
    post: AppState,
    chat_id: Seq<char>,
    fetched: Seq<ChatMessage>,
    events: Seq<Event>,
    cached: Seq<ChatMessage>,
    changed: Vec<ChatMessage>,
    deleted: Vec<String>,
    cid: String,
    v: MessageView,
)
    requires
        poll_outcome(pre, post, chat_id, fetched, events, cached, changed, deleted, cid),
        unique_ids(pre.messages@),
        copies_agree(fetched),
        forall|i: int| 0 <= i < fetched.len() ==> (#[trigger] fetched[i]).chat_id@ == chat_id,
    ensures
        views(post.messages@.filter(in_chat(chat_id))).contains(v) <==> views(fetched).contains(v),
        unique_ids(post.messages@),
        is_ordered(pre.messages@) ==> is_ordered(post.messages@),
{
    lemma_poll_keeps_unique(pre, post, chat_id, fetched, events, cached, changed, deleted, cid);
    let s0 = pre.messages@;
    let p0 = post.messages@;
    let inc = in_chat(chat_id);
    let scope = s0.filter(inc);
    let pred = changed_pred(cached);
    let fp = fetched.filter(pred);
    let ch = changed@;
    let del = deleted@;
    let empty = ch.len() == 0 && del.len() == 0;
    lemma_filter_unique(s0, inc);
    lemma_views_unique(cached, scope);
    lemma_filter_copies_agree(fetched, pred);
    lemma_views_copies_agree(ch, fp);
    lemma_upsert_all_members(s0, ch);
    let u = upsert_all(s0, ch).0;
    assert(views(cached).len() == cached.len() && views(scope).len() == scope.len());
    assert(views(ch).len() == ch.len() && views(fp).len() == fp.len());
    // Membership of the post state, case by case.
    assert forall|m: ChatMessage| #[trigger] p0.contains(m) <==> (if empty {
        s0.contains(m)
    } else {
        u.contains(m) && (del.len() == 0 || not_deleted(del)(m))
    }) by {
        if !empty {
            if del.len() == 0 {
                lemma_stable_order_same_elements(p0, u, m);
            } else {
                lemma_stable_order_same_elements(p0, u.filter(not_deleted(del)), m);
                lemma_filter_member(u, not_deleted(del), m);
            }
        }
    }
    // A message of the state in the chat, whose id no changed message carries,
    // is, by value, a message of the page, provided it survives.
    assert forall|m: ChatMessage|
        s0.contains(m) && inc(m) && !has_id(ch, m.id@) && #[trigger] p0.contains(m) implies views(
        fetched,
    ).contains(m@) by {
        lemma_filter_member(s0, inc, m);
        let k = choose|k: int| 0 <= k < scope.len() && scope[k] == m;
        assert(views(cached)[k] == views(scope)[k]);
        assert(views(cached)[k] == cached[k]@ && views(scope)[k] == scope[k]@);
        let c = cached[k];
        assert(cached.contains(c));
        if !has_id(fetched, m.id@) {
            lemma_absent_is_deleted(cached, fetched, del, c);
            assert(!not_deleted(del)(m));
        }
        let r = choose|r: int| 0 <= r < fetched.len() && (#[trigger] fetched[r]).id@ == m.id@;
        let f = fetched[r];
        if pred(f) {
            fetched.lemma_filter_contains(pred, r);
            let q = choose|q: int| 0 <= q < fp.len() && fp[q] == f;
            assert(views(ch)[q] == views(fp)[q]);
            assert(views(ch)[q] == ch[q]@ && views(fp)[q] == fp[q]@);
            assert(ch[q].id@ == m.id@);
        }
        lemma_cached_copy_member(cached, f.id@);
        lemma_cached_copy_id(cached, f.id@);
        let c2 = cached_copy(cached, f.id@)->0;
        let k2 = choose|k2: int| 0 <= k2 < cached.len() && cached[k2] == c2;
        if k2 != k {
            if k2 < k {
                assert(cached[k2].id@ != cached[k].id@);
            } else {
                assert(cached[k].id@ != cached[k2].id@);
            }
        }
        assert(f@ == m@);
        assert(views(fetched)[r] == f@);
    }
    if views(fetched).contains(v) {
        let i = choose|i: int| 0 <= i < fetched.len() && views(fetched)[i] == v;
        let f = fetched[i];
        assert(views(fetched)[i] == f@);
        let m: ChatMessage = if pred(f) {
            fetched.lemma_filter_contains(pred, i);
            let q = choose|q: int| 0 <= q < fp.len() && fp[q] == f;
            assert(views(ch)[q] == views(fp)[q]);
            assert(views(ch)[q] == ch[q]@ && views(fp)[q] == fp[q]@);
            let c = ch[q];
            assert(ch.contains(c));
            assert(has_id(fetched, c.id@)) by {
                assert(fetched[i].id@ == c.id@);
            }
            assert(views(u).contains(ch[q]@));
            let k = choose|k: int| 0 <= k < views(u).len() && views(u)[k] == ch[q]@;
            let w = u[k];
            assert(views(u)[k] == w@);
            assert(u.contains(w));
            assert(has_id(fetched, w.id@)) by {
                assert(fetched[i].id@ == w.id@);
            }
            lemma_fetched_not_deleted(cached, fetched, del, w);
            assert(p0.contains(w));
            w
        } else {
            lemma_cached_copy_member(cached, f.id@);
            let c2 = cached_copy(cached, f.id@)->0;
            let k = choose|k: int| 0 <= k < cached.len() && cached[k] == c2;
            assert(views(cached)[k] == views(scope)[k]);
            assert(views(cached)[k] == cached[k]@ && views(scope)[k] == scope[k]@);
            let m = scope[k];
            assert(scope.contains(m));
            lemma_filter_member(s0, inc, m);
            if has_id(ch, m.id@) {
                let q = choose|q: int| 0 <= q < ch.len() && (#[trigger] ch[q]).id@ == m.id@;
                assert(views(ch)[q] == views(fp)[q]);
                assert(views(ch)[q] == ch[q]@ && views(fp)[q] == fp[q]@);
                let g = fp[q];
                assert(fp.contains(g));
                lemma_filter_member(fetched, pred, g);
                let r = choose|r: int| 0 <= r < fetched.len() && fetched[r] == g;
                assert(fetched[r].id@ == fetched[i].id@);
                assert(fetched[r]@ == fetched[i]@);
                assert(pred(g) == pred(f));
            }
            assert(has_id(fetched, m.id@)) by {
                assert(fetched[i].id@ == m.id@);
            }
            lemma_fetched_not_deleted(cached, fetched, del, m);
            assert(p0.contains(m));
            m
        };
        assert(m@ == v);
        lemma_filter_member(p0, inc, m);
        lemma_member_view(p0.filter(inc), m);
    }
    if views(p0.filter(inc)).contains(v) {
        let k = choose|k: int| 0 <= k < p0.filter(inc).len() && views(p0.filter(inc))[k] == v;
        let m = p0.filter(inc)[k];
        assert(views(p0.filter(inc))[k] == m@);
        assert(p0.filter(inc).contains(m));
        lemma_filter_member(p0, inc, m);
        if !empty && ch.contains(m) {
            let q = choose|q: int| 0 <= q < ch.len() && ch[q] == m;
            assert(views(ch)[q] == views(fp)[q]);
            assert(views(ch)[q] == ch[q]@ && views(fp)[q] == fp[q]@);
            let g = fp[q];
            assert(fp.contains(g));
            lemma_filter_member(fetched, pred, g);
            lemma_member_view(fetched, g);
        } else {
            if empty {
                assert(!has_id(ch, m.id@));
            }
        }
    }
}

/// After a poll, the state's message ids are still distinct.
proof fn lemma_poll_keeps_unique(
    pre: AppState,
    post: AppState,
    chat_id: Seq<char>,
    fetched: Seq<ChatMessage>,
    events: Seq<Event>,
    cached: Seq<ChatMessage>,
    changed: Vec<ChatMessage>,
    deleted: Vec<String>,
    cid: String,
)
    requires
        poll_outcome(pre, post, chat_id, fetched, events, cached, changed, deleted, cid),
        unique_ids(pre.messages@),
        copies_agree(fetched),
    ensures
        unique_ids(post.messages@),
{
    let s0 = pre.messages@;
    let pred = changed_pred(cached);
    let fp = fetched.filter(pred);
    let ch = changed@;
    lemma_filter_copies_agree(fetched, pred);
    lemma_views_copies_agree(ch, fp);
    lemma_upsert_all_members(s0, ch);
    let u = upsert_all(s0, ch).0;
    if !(ch.len() == 0 && deleted@.len() == 0) {
        if deleted@.len() == 0 {
            lemma_stable_keeps_unique(post.messages@, u);
        } else {
            lemma_filter_unique(u, not_deleted(deleted@));
            lemma_stable_keeps_unique(post.messages@, u.filter(not_deleted(deleted@)));
        }
    }
}

/// Law: polling a chat twice with the same page, each time in any order and
/// with any repeats of alike copies, leaves the second poll silent: it
/// reports nothing and changes nothing. Message ids are distinct in the
/// state, copies sharing an id in the page are alike, and the page holds
/// only messages of the polled chat.
pub proof fn lemma_second_poll_is_silent(
    pre: AppState,
    mid: AppState,
    post: AppState,
    chat_id: Seq<char>,
    fetched: Seq<ChatMessage>,
    again: Seq<ChatMessage>,
    events1: Seq<Event>,
    cached1: Seq<ChatMessage>,
    changed1: Vec<ChatMessage>,
    deleted1: Vec<String>,
    cid1: String,
    events2: Seq<Event>,
    cached2: Seq<ChatMessage>,
    changed2: Vec<ChatMessage>,
    deleted2: Vec<String>,
    cid2: String,
)
    requires
        poll_outcome(pre, mid, chat_id, fetched, events1, cached1, changed1, deleted1, cid1),
        poll_outcome(mid, post, chat_id, again, events2, cached2, changed2, deleted2, cid2),
        views(again).to_set() == views(fetched).to_set(),
        unique_ids(pre.messages@),
        copies_agree(fetched),
        forall|i: int| 0 <= i < fetched.len() ==> (#[trigger] fetched[i]).chat_id@ == chat_id,
    ensures
        events2.len() == 0,
        post.messages@ == mid.messages@,
        post.chats@ == mid.chats@,
        post.selected_chat == mid.selected_chat,
        post.connection == mid.connection,
{
    let scope = mid.messages@.filter(in_chat(chat_id));
    lemma_poll_keeps_unique(pre, mid, chat_id, fetched, events1, cached1, changed1, deleted1, cid1);
    lemma_filter_unique(mid.messages@, in_chat(chat_id));
    assert forall|v: MessageView| views(scope).to_set().contains(v) <==> views(fetched).to_set().contains(
        v,
    ) by {
        lemma_poll_converges(pre, mid, chat_id, fetched, events1, cached1, changed1, deleted1, cid1, v);
    }
    assert(views(again).to_set() =~= views(scope).to_set());
    lemma_unchanged_poll_is_silent(mid, post, chat_id, again, events2, cached2, changed2, deleted2, cid2);
}

} // verus!
