//! Visual-only notification queue: status-bar notices, never an audible bell.
//! Notice text is sanitized at the boundary, so no control character (the
//! bell among them) reaches the terminal.
use vstd::prelude::*;
use std::collections::VecDeque;
use crate::sanitize::{is_safe_char, lemma_sanitized_is_safe, sanitize, sanitized};
use crate::text::{concat, owned, same_text};
use crate::time::{age_nanos, instant_now, Duration};

verus! {

/// One notice line.
struct Notice {
    chat_id: String,
    text: String,
    created: std::time::Instant,
}

/// Bounded visual notice queue with per-chat unread flags.
pub struct NoticeQueue {
    items: VecDeque<Notice>,
    cap: usize,
    ttl: Duration,
    unread_chats: Vec<String>,
}

/// The texts of a run of notices.
spec fn notice_texts(items: Seq<Notice>) -> Seq<Seq<char>> {
    items.map_values(|n: Notice| n.text@)
}

/// The notices of `items` younger than `ttl`, with `ages[i]` the age of
/// `items[i]` when it was checked.
spec fn fresh(items: Seq<Notice>, ages: Seq<u128>, ttl: nat) -> Seq<Notice>
    decreases items.len(),
{
    if items.len() == 0 || ages.len() != items.len() {
        Seq::empty()
    } else {
        let rest = fresh(items.drop_last(), ages.drop_last(), ttl);
        if ages.last() < ttl {
            rest.push(items.last())
        } else {
            rest
        }
    }
}

/// The texts that survive an eviction pass with these ages.
pub open spec fn fresh_texts(texts: Seq<Seq<char>>, ages: Seq<u128>, ttl: nat) -> Seq<Seq<char>>
    decreases texts.len(),
{
    if texts.len() == 0 || ages.len() != texts.len() {
        Seq::empty()
    } else {
        let rest = fresh_texts(texts.drop_last(), ages.drop_last(), ttl);
        if ages.last() < ttl {
            rest.push(texts.last())
        } else {
            rest
        }
    }
}

proof fn lemma_fresh_texts(items: Seq<Notice>, ages: Seq<u128>, ttl: nat)
    requires
        ages.len() == items.len(),
    ensures
        notice_texts(fresh(items, ages, ttl)) == fresh_texts(notice_texts(items), ages, ttl),
    decreases items.len(),
{
    if items.len() > 0 {
        lemma_fresh_texts(items.drop_last(), ages.drop_last(), ttl);
        assert(notice_texts(items).drop_last() =~= notice_texts(items.drop_last()));
        let r = fresh(items.drop_last(), ages.drop_last(), ttl);
        assert(notice_texts(r.push(items.last())) =~= notice_texts(r).push(items.last().text@));
    }
}

/// Law: a zero time-to-live keeps nothing; no pass ever adds a notice.
pub proof fn lemma_fresh_texts_shrink(texts: Seq<Seq<char>>, ages: Seq<u128>, ttl: nat)
    requires
        ages.len() == texts.len(),
    ensures
        fresh_texts(texts, ages, ttl).len() <= texts.len(),
        ttl == 0 ==> fresh_texts(texts, ages, ttl).len() == 0,
    decreases texts.len(),
{
    if texts.len() > 0 {
        lemma_fresh_texts_shrink(texts.drop_last(), ages.drop_last(), ttl);
    }
}

/// The texts that a push of `text` onto a queue holding `texts` with
/// capacity `cap` leaves: oldest ones evicted so at most `cap` remain.
pub open spec fn pushed(texts: Seq<Seq<char>>, cap: nat, text: Seq<char>) -> Seq<Seq<char>> {
    let keep: int = if texts.len() >= cap {
        if cap >= 1 { cap - 1 } else { 0 }
    } else {
        texts.len() as int
    };
    texts.skip(texts.len() - keep).push(text)
}

impl NoticeQueue {
    /// The notice texts, oldest first.
    pub closed spec fn texts_view(&self) -> Seq<Seq<char>> {
        notice_texts(self.items@)
    }

    /// The most notices the queue holds.
    pub closed spec fn capacity(&self) -> nat {
        self.cap as nat
    }

    /// How long a notice stays, in nanoseconds.
    pub closed spec fn ttl_nanos(&self) -> nat {
        self.ttl@
    }

    /// Chats with an unread notice.
    pub closed spec fn unread_view(&self) -> Set<Seq<char>> {
        self.unread_chats@.map_values(|s: String| s@).to_set()
    }

    /// A queue of at most `cap` notices (at least one) that stay 30 seconds.
    pub fn new(cap: usize) -> (q: NoticeQueue)
        ensures
            q.texts_view() == Seq::<Seq<char>>::empty(),
            q.capacity() == if cap < 1 { 1 } else { cap },
            q.ttl_nanos() == 30_000_000_000,
            q.unread_view() == Set::<Seq<char>>::empty(),
    {
        NoticeQueue::with_ttl(cap, Duration::from_secs(30))
    }

    /// A queue of at most `cap` notices (at least one) that stay `ttl`.
    pub fn with_ttl(cap: usize, ttl: Duration) -> (q: NoticeQueue)
        ensures
            q.texts_view() == Seq::<Seq<char>>::empty(),
            q.capacity() == if cap < 1 { 1 } else { cap },
            q.ttl_nanos() == ttl@,
            q.unread_view() == Set::<Seq<char>>::empty(),
    {
        let q = NoticeQueue {
            items: VecDeque::new(),
            cap: if cap < 1 {
                1
            } else {
                cap
            },
            ttl,
            unread_chats: Vec::new(),
        };
        proof {
            assert(q.texts_view() =~= Seq::<Seq<char>>::empty());
            assert(q.unread_view() =~= Set::<Seq<char>>::empty());
        }
        q
    }

    /// Whether `chat_id` is among the unread chats.
    fn unread_index(&self, chat_id: &str) -> (r: Option<usize>)
        ensures
            match r {
                Some(i) => i < self.unread_chats@.len() && self.unread_chats@[i as int]@ == chat_id@,
                None => !self.unread_view().contains(chat_id@),
            },
    {
        let mut i: usize = 0;
        while i < self.unread_chats.len()
            invariant
                i <= self.unread_chats@.len(),
                forall|j: int| 0 <= j < i ==> (#[trigger] self.unread_chats@[j])@ != chat_id@,
            decreases self.unread_chats.len() - i,
        {
            if same_text(self.unread_chats[i].as_str(), chat_id) {
                return Some(i);
            }
            i = i + 1;
        }
        proof {
            if self.unread_view().contains(chat_id@) {
                let k = self.unread_chats@.map_values(|s: String| s@).index_of(chat_id@);
                assert(self.unread_chats@.map_values(|s: String| s@)[k] == chat_id@);
                assert(self.unread_chats@[k]@ == chat_id@);
            }
        }
        None
    }

    /// Queues a notice for `chat_id` with `text` sanitized, evicting the
    /// oldest past capacity, and flags the chat unread.
    pub fn push(&mut self, chat_id: &str, text: &str)
        ensures
            final(self).texts_view() == pushed(old(self).texts_view(), old(self).capacity(), sanitized(text@)),
            final(self).capacity() == old(self).capacity(),
            final(self).ttl_nanos() == old(self).ttl_nanos(),
            final(self).unread_view() == old(self).unread_view().insert(chat_id@),
    {
        let clean = sanitize(text);
        let ghost t0 = self.texts_view();
        proof {
            assert(t0.skip(0) =~= t0);
        }
        let ghost keep: int = if t0.len() >= self.cap {
            if self.cap >= 1 { self.cap - 1 } else { 0 }
        } else {
            t0.len() as int
        };
        while self.items.len() > 0 && self.items.len() >= self.cap
            invariant
                self.cap == old(self).cap,
                self.ttl == old(self).ttl,
                self.unread_chats == old(self).unread_chats,
                keep <= self.items@.len() <= t0.len(),
                notice_texts(self.items@) == t0.skip(t0.len() - self.items@.len()),
                t0 == old(self).texts_view(),
                keep == if t0.len() >= self.cap {
                    if self.cap >= 1 { self.cap - 1 } else { 0 }
                } else {
                    t0.len() as int
                },
            decreases self.items@.len(),
        {
            let ghost before = self.items@;
            let _ = self.items.pop_front();
            proof {
                assert(notice_texts(self.items@) =~= notice_texts(before).skip(1));
                assert(t0.skip(t0.len() - before.len()).skip(1) =~= t0.skip(t0.len() - self.items@.len()));
            }
        }
        let ghost mid = self.items@;
        self.items.push_back(Notice { chat_id: owned(chat_id), text: clean, created: instant_now() });
        proof {
            assert(self.items@.len() - 1 == keep);
            assert(notice_texts(self.items@) =~= notice_texts(mid).push(clean@));
        }
        match self.unread_index(chat_id) {
            None => {
                let ghost before = self.unread_chats@;
                self.unread_chats.push(owned(chat_id));
                proof {
                    assert(self.unread_chats@.map_values(|s: String| s@) =~= before.map_values(
                        |s: String| s@,
                    ).push(chat_id@));
                    before.map_values(|s: String| s@).lemma_push_to_set_commute(chat_id@);
                }
            },
            Some(i) => {
                proof {
                    let names = self.unread_chats@.map_values(|s: String| s@);
                    assert(names[i as int] == chat_id@);
                    assert(names.contains(chat_id@));
                    assert(self.unread_view() =~= old(self).unread_view().insert(chat_id@));
                }
            },
        }
    }

    /// Drops the notices whose age is not under the time-to-live, with
    /// `ages[i]` the age of the `i`-th notice, oldest first; the others stay,
    /// in order.
    pub fn evict_with_ages(&mut self, ages: &Vec<u128>)
        requires
            ages@.len() == old(self).texts_view().len(),
        ensures
            final(self).texts_view() == fresh_texts(old(self).texts_view(), ages@, old(self).ttl_nanos()),
            final(self).capacity() == old(self).capacity(),
            final(self).ttl_nanos() == old(self).ttl_nanos(),
            final(self).unread_view() == old(self).unread_view(),
    {
        let ghost items0 = self.items@;
        let mut kept: VecDeque<Notice> = VecDeque::new();
        let ttl = self.ttl.nanos;
        let mut k: usize = 0;
        let n_ages = ages.len();
        while self.items.len() > 0
            invariant
                n_ages == ages@.len(),
                k + self.items@.len() == items0.len(),
                ages@.len() == items0.len(),
                self.items@ == items0.skip(k as int),
                kept@ == fresh(items0.take(k as int), ages@.take(k as int), ttl as nat),
                ttl == old(self).ttl.nanos,
                self.cap == old(self).cap,
                self.ttl == old(self).ttl,
                self.unread_chats == old(self).unread_chats,
                items0 == old(self).items@,
            decreases self.items@.len(),
        {
            let ghost before = self.items@;
            if let Some(n) = self.items.pop_front() {
                let age = ages[k];
                proof {
                    assert(items0.take(k + 1).drop_last() =~= items0.take(k as int));
                    assert(before[0] == items0[k as int]);
                    assert(items0.take(k + 1).last() == n);
                    assert(ages@.take(k + 1).drop_last() =~= ages@.take(k as int));
                    assert(ages@.take(k + 1).last() == age);
                    assert(self.items@ =~= items0.skip(k + 1));
                }
                if age < ttl {
                    kept.push_back(n);
                }
                k = k + 1;
            }
        }
        proof {
            assert(items0.take(k as int) =~= items0);
            assert(ages@.take(k as int) =~= ages@);
            lemma_fresh_texts(items0, ages@, ttl as nat);
        }
        self.items = kept;
    }

    /// Drops the notices older than the time-to-live: the age of each
    /// notice's creation moment is read from the clock and handed to
    /// `evict_with_ages`; whatever those ages, the notices that remain are
    /// those younger than the time-to-live, in order.
    pub fn evict_expired(&mut self)
        ensures
            exists|ages: Seq<u128>|
                ages.len() == old(self).texts_view().len() && #[trigger] fresh_texts(
                    old(self).texts_view(),
                    ages,
                    old(self).ttl_nanos(),
                ) == final(self).texts_view(),
            final(self).capacity() == old(self).capacity(),
            final(self).ttl_nanos() == old(self).ttl_nanos(),
            final(self).unread_view() == old(self).unread_view(),
    {
        let mut ages: Vec<u128> = Vec::new();
        let mut i: usize = 0;
        while i < self.items.len()
            invariant
                i <= self.items@.len(),
                ages@.len() == i,
            decreases self.items@.len() - i,
        {
            ages.push(age_nanos(&self.items[i].created));
            i = i + 1;
        }
        self.evict_with_ages(&ages);
    }

    pub fn len(&self) -> (r: usize)
        ensures
            r == self.texts_view().len(),
    {
        self.items.len()
    }

    pub fn is_empty(&self) -> (r: bool)
        ensures
            r == (self.texts_view().len() == 0),
    {
        self.items.len() == 0
    }

    /// The notice texts, oldest first.
    pub fn texts(&self) -> (r: Vec<String>)
        ensures
            r@.map_values(|s: String| s@) == self.texts_view(),
    {
        let mut out: Vec<String> = Vec::new();
        let mut i: usize = 0;
        while i < self.items.len()
            invariant
                i <= self.items@.len(),
                out@.map_values(|s: String| s@) == notice_texts(self.items@).take(i as int),
            decreases self.items@.len() - i,
        {
            let ghost before = out@;
            let t = self.items[i].text.clone();
            proof {
                assert(notice_texts(self.items@).take(i + 1) =~= notice_texts(self.items@).take(
                    i as int,
                ).push(self.items@[i as int].text@));
            }
            out.push(t);
            i = i + 1;
            proof {
                assert(out@.map_values(|s: String| s@) =~= before.map_values(|s: String| s@).push(t@));
            }
        }
        proof {
            assert(notice_texts(self.items@).take(i as int) =~= notice_texts(self.items@));
        }
        out
    }

    /// Whether `chat_id` has an unread notice.
    pub fn unread(&self, chat_id: &str) -> (r: bool)
        ensures
            r == self.unread_view().contains(chat_id@),
    {
        match self.unread_index(chat_id) {
            Some(i) => {
                proof {
                    assert(self.unread_chats@.map_values(|s: String| s@)[i as int] == chat_id@);
                }
                true
            },
            None => false,
        }
    }

    /// Clears the unread flag of `chat_id`.
    pub fn mark_read(&mut self, chat_id: &str)
        ensures
            final(self).unread_view() == old(self).unread_view().remove(chat_id@),
            final(self).texts_view() == old(self).texts_view(),
            final(self).capacity() == old(self).capacity(),
            final(self).ttl_nanos() == old(self).ttl_nanos(),
    {
        let mut rest: Vec<String> = Vec::new();
        let mut i: usize = 0;
        while i < self.unread_chats.len()
            invariant
                i <= self.unread_chats@.len(),
                rest@.map_values(|s: String| s@).to_set() == self.unread_chats@.take(i as int).map_values(
                    |s: String| s@,
                ).to_set().remove(chat_id@),
            decreases self.unread_chats.len() - i,
        {
            let ghost before = rest@;
            let ghost prefix = self.unread_chats@.take(i as int);
            let ghost x = self.unread_chats@[i as int]@;
            proof {
                assert(self.unread_chats@.take(i + 1).map_values(|s: String| s@) =~= prefix.map_values(
                    |s: String| s@,
                ).push(x));
                prefix.map_values(|s: String| s@).lemma_push_to_set_commute(x);
            }
            if !same_text(self.unread_chats[i].as_str(), chat_id) {
                rest.push(self.unread_chats[i].clone());
                proof {
                    assert(rest@.map_values(|s: String| s@) =~= before.map_values(|s: String| s@).push(
                        self.unread_chats@[i as int]@,
                    ));
                    before.map_values(|s: String| s@).lemma_push_to_set_commute(x);
                    assert(rest@.map_values(|s: String| s@).to_set() =~= self.unread_chats@.take(
                        i + 1,
                    ).map_values(|s: String| s@).to_set().remove(chat_id@));
                }
            } else {
                proof {
                    assert(self.unread_chats@.take(i + 1).map_values(|s: String| s@).to_set().remove(
                        chat_id@,
                    ) =~= prefix.map_values(|s: String| s@).to_set().remove(chat_id@));
                }
            }
            i = i + 1;
        }
        proof {
            assert(self.unread_chats@.take(i as int) =~= self.unread_chats@);
        }
        self.unread_chats = rest;
    }
}

/// The notice text for an incoming message: `Sender: body`.
pub fn notify_for_message(sender: &str, body: &str) -> (r: String)
    ensures
        r@ == sender@ + ": "@ + body@,
{
    let head = concat(sender, ": ");
    concat(head.as_str(), body)
}

/// Every character of every text is safe for the terminal.
pub open spec fn all_safe(texts: Seq<Seq<char>>) -> bool {
    forall|i: int, k: int|
        0 <= i < texts.len() && 0 <= k < texts[i].len() ==> is_safe_char(#[trigger] texts[i][k])
}

/// Law: a push keeps the queue within its capacity (at least one), puts the
/// new notice last, and, notices being sanitized, never lets a control
/// character (the bell among them) into a queue that had none.
pub proof fn lemma_push_bounded_and_safe(texts: Seq<Seq<char>>, cap: nat, text: Seq<char>)
    ensures
        pushed(texts, cap, sanitized(text)).len() <= if cap >= 1 { cap } else { 1 },
        pushed(texts, cap, sanitized(text)).last() == sanitized(text),
        all_safe(texts) ==> all_safe(pushed(texts, cap, sanitized(text))),
{
    let r = pushed(texts, cap, sanitized(text));
    lemma_sanitized_is_safe(text, 0);
    if all_safe(texts) {
        let keep: int = if texts.len() >= cap {
            if cap >= 1 { cap - 1 } else { 0 }
        } else {
            texts.len() as int
        };
        let start = texts.len() - keep;
        assert forall|i: int, k: int| 0 <= i < r.len() && 0 <= k < r[i].len() implies is_safe_char(
            #[trigger] r[i][k],
        ) by {
            if i < r.len() - 1 {
                assert(r[i] == texts[start + i]);
                assert(is_safe_char(texts[start + i][k]));
            } else {
                assert(r[i] == sanitized(text));
            }
        }
    }
}

} // verus!
