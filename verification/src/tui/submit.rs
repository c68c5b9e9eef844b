//! The decisions of the optimistic submit cycle: blank text is refused
//! without I/O; otherwise a sanitized temporary message goes in first, is
//! swapped for the server's copy on success, and rolled back on failure so the
//! state never holds phantom messages.
use vstd::prelude::*;
use crate::app::reducer::{AppState, Command, EMPTY_BODY, Event, apply_result};
use crate::domain::message::{ChatMessage, MessageView, has_id};
use crate::domain::order::{
    is_ordered, key_class, key_pred, lemma_stable_order_unique, msg_before,
};
use crate::sanitize::{sanitize, sanitized};
use crate::text::{is_blank, is_blank_text, owned, same_text};
use crate::error::AppError;

verus! {

/// The refusal a blank submission gets, if it is blank.
pub fn blank_submit(text: &str) -> (r: Option<Vec<Event>>)
    ensures
        is_blank_text(text@) ==> (r matches Some(v) && v@ == seq![Event::Rejected { reason: EMPTY_BODY }]),
        !is_blank_text(text@) ==> r is None,
{
    if is_blank(text) {
        let mut v: Vec<Event> = Vec::new();
        v.push(Event::Rejected { reason: EMPTY_BODY });
        proof {
            assert(v@ =~= seq![Event::Rejected { reason: EMPTY_BODY }]);
        }
        Some(v)
    } else {
        None
    }
}

/// The temporary message of an optimistic send: from `me`, read, with the
/// text sanitized, created and modified `now`.
pub fn optimistic_message(chat_id: &str, text: &str, temp_id: String, now: i64) -> (m: ChatMessage)
    ensures
        m@ == (MessageView {
            id: temp_id@,
            chat_id: chat_id@,
            created: now,
            modified: now,
            sender: "me"@,
            body: sanitized(text@),
            reply_to_id: None,
            reactions: Seq::empty(),
            mentions: Seq::empty(),
            is_read: true,
        }),
{
    let m = ChatMessage {
        id: temp_id,
        chat_id: owned(chat_id),
        created: now,
        modified: now,
        sender: owned("me"),
        body: sanitize(text),
        reply_to_id: None,
        reactions: Vec::new(),
        mentions: Vec::new(),
        is_read: true,
    };
    proof {
        assert(m@.reactions =~= Seq::empty());
        assert(m@.mentions =~= Seq::empty());
    }
    m
}

/// Messages other than the one with id `id`.
pub open spec fn not_id(id: Seq<char>) -> spec_fn(ChatMessage) -> bool {
    |m: ChatMessage| m.id@ != id
}

impl AppState {
    /// Settles an optimistic send with the server's answer: the confirmed
    /// copy replaces the temporary message and the events of that step come
    /// back; a failure rolls the temporary message back and passes the error
    /// on.
    pub fn finish_submit(&mut self, temp_id: String, sent: Result<ChatMessage, AppError>) -> (r: Result<
        Vec<Event>,
        AppError,
    >)
        ensures
            match sent {
                Ok(m) => r matches Ok(ev) && apply_result(
                    *old(self),
                    Command::MessageConfirmed { temp_id, message: m },
                    *final(self),
                    ev@,
                ),
                Err(e) => {
                    &&& r == Err::<Vec<Event>, AppError>(e)
                    &&& final(self).messages@ == old(self).messages@.filter(not_id(temp_id@))
                    &&& final(self).chats@ == old(self).chats@
                    &&& final(self).selected_chat == old(self).selected_chat
                    &&& final(self).connection == old(self).connection
                },
            },
    {
        match sent {
            Ok(m) => Ok(self.apply(Command::MessageConfirmed { temp_id, message: m })),
            Err(e) => {
                self.rollback_message(temp_id.as_str());
                Err(e)
            },
        }
    }

    /// Rolls back an optimistic message: every message with `temp_id` goes;
    /// the rest, and everything else of the state, stay as they were.
    pub fn rollback_message(&mut self, temp_id: &str)
        ensures
            final(self).messages@ == old(self).messages@.filter(not_id(temp_id@)),
            final(self).chats@ == old(self).chats@,
            final(self).selected_chat == old(self).selected_chat,
            final(self).connection == old(self).connection,
    {
        let mut kept: Vec<ChatMessage> = Vec::new();
        let mut msgs: Vec<ChatMessage> = Vec::new();
        std::mem::swap(&mut msgs, &mut self.messages);
        let ghost all = msgs@;
        for m in it: msgs
            invariant
                it.seq() == all,
                kept@ == all.take(it.index() as int).filter(not_id(temp_id@)),
        {
            proof {
                let k = it.index() as int;
                assert(all.take(k + 1) =~= all.take(k).push(all[k]));
                all.take(k).lemma_filter_push(all[k], not_id(temp_id@));
            }
            if !same_text(m.id.as_str(), temp_id) {
                kept.push(m);
            }
        }
        proof {
            assert(all.take(all.len() as int) =~= all);
        }
        self.messages = kept;
    }
}

proof fn lemma_filter_ordered(s: Seq<ChatMessage>, q: spec_fn(ChatMessage) -> bool)
    requires
        is_ordered(s),
    ensures
        is_ordered(s.filter(q)),
    decreases s.len(),
{
    reveal(Seq::filter);
    if s.len() > 0 {
        let init = s.drop_last();
        assert(is_ordered(init)) by {
            assert forall|i: int, j: int| 0 <= i < j < init.len() implies !msg_before(
                #[trigger] init[j],
                #[trigger] init[i],
            ) by {
                assert(init[i] == s[i] && init[j] == s[j]);
            }
        }
        lemma_filter_ordered(init, q);
        let f = init.filter(q);
        if q(s.last()) {
            let r = f.push(s.last());
            assert forall|i: int, j: int| 0 <= i < j < r.len() implies !msg_before(
                #[trigger] r[j],
                #[trigger] r[i],
            ) by {
                if j == r.len() - 1 {
                    assert(f.contains(f[i]));
                    init.lemma_filter_contains_rev(q, f[i]);
                    let k = choose|k: int| 0 <= k < init.len() && init[k] == f[i];
                    assert(s[k] == f[i]);
                    assert(s[s.len() - 1] == s.last());
                } else {
                    assert(r[i] == f[i] && r[j] == f[j]);
                }
            }
        }
    }
}

proof fn lemma_filter_commute(
    s: Seq<ChatMessage>,
    p: spec_fn(ChatMessage) -> bool,
    q: spec_fn(ChatMessage) -> bool,
)
    ensures
        s.filter(p).filter(q) == s.filter(q).filter(p),
    decreases s.len(),
{
    reveal(Seq::filter);
    if s.len() > 0 {
        let init = s.drop_last();
        let x = s.last();
        lemma_filter_commute(init, p, q);
        init.filter(p).lemma_filter_push(x, q);
        init.filter(q).lemma_filter_push(x, p);
        if p(x) {
            assert(s.filter(p) == init.filter(p).push(x));
        } else {
            assert(s.filter(p) == init.filter(p));
        }
        if q(x) {
            assert(s.filter(q) == init.filter(q).push(x));
        } else {
            assert(s.filter(q) == init.filter(q));
        }
    }
}

proof fn lemma_filter_all(s: Seq<ChatMessage>, q: spec_fn(ChatMessage) -> bool)
    requires
        forall|i: int| 0 <= i < s.len() ==> q(#[trigger] s[i]),
    ensures
        s.filter(q) == s,
    decreases s.len(),
{
    reveal(Seq::filter);
    if s.len() > 0 {
        let init = s.drop_last();
        assert forall|i: int| 0 <= i < init.len() implies q(#[trigger] init[i]) by {
            assert(init[i] == s[i]);
        }
        lemma_filter_all(init, q);
        assert(q(s[s.len() - 1]));
        assert(init.push(s.last()) =~= s);
    }
}

/// Law: a failed send leaves the message list as it was: sending a message
/// whose id is new to an ordered list and then rolling it back gives the
/// list back unchanged.
pub proof fn lemma_failed_submit_restores(
    pre: AppState,
    temp: ChatMessage,
    mid: AppState,
    events: Seq<Event>,
)
    requires
        is_ordered(pre.messages@),
        !has_id(pre.messages@, temp.id@),
        apply_result(pre, Command::MessageSent { message: temp }, mid, events),
    ensures
        mid.messages@.filter(not_id(temp.id@)) == pre.messages@,
{
    let q = not_id(temp.id@);
    let s0 = pre.messages@;
    assert forall|i: int| 0 <= i < s0.len() implies q(#[trigger] s0[i]) by {
        if s0[i].id@ == temp.id@ {
            assert(has_id(s0, temp.id@));
        }
    }
    lemma_filter_all(s0, q);
    if !is_blank_text(temp.body@) {
        let m = mid.messages@;
        let r = m.filter(q);
        lemma_filter_ordered(m, q);
        assert forall|x: ChatMessage| #[trigger] key_class(r, x) == key_class(s0, x) by {
            let kp = key_pred(x);
            lemma_filter_commute(m, q, kp);
            assert(key_class(m, x) == key_class(s0.push(temp), x));
            s0.lemma_filter_push(temp, kp);
            let kc = key_class(s0, x);
            if kp(temp) {
                assert(key_class(s0.push(temp), x) == kc.push(temp));
                kc.lemma_filter_push(temp, q);
            }
            assert forall|i: int| 0 <= i < kc.len() implies q(#[trigger] kc[i]) by {
                assert(kc.contains(kc[i]));
                s0.lemma_filter_contains_rev(kp, kc[i]);
                let k = choose|k: int| 0 <= k < s0.len() && s0[k] == kc[i];
                assert(q(s0[k]));
            }
            lemma_filter_all(kc, q);
        }
        lemma_stable_order_unique(r, s0);
    }
}

} // verus!
