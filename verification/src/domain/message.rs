//! Chat messages in normalized, Graph-independent form, with their ordering,
//! deduplication and sync-diff rules.
use vstd::prelude::*;
use vstd::utf8::encode_utf8;
use super::order::{
    id_bytes, is_ordered, is_stable_order_of, key_class, key_pred, lemma_filter_none,
    lemma_stable_order_unique, order_messages, same_key,
};

verus! {

/// A normalized reaction (e.g. like, heart) from one user.
#[derive(Debug, Clone, PartialEq, Eq)]
pub struct Reaction {
    pub kind: String,
    pub user_id: String,
    pub display_name: String,
}

/// A normalized @-mention inside a message body.
#[derive(Debug, Clone, PartialEq, Eq)]
pub struct Mention {
    pub user_id: Option<String>,
    pub display_name: String,
    pub offset: usize,
    pub length: usize,
}

/// A single chat message in normalized form.
///
/// `created` and `modified` are instants in nanoseconds since the Unix epoch,
/// so messages sent within one millisecond keep their order.
#[derive(Debug, Clone, PartialEq, Eq)]
pub struct ChatMessage {
    pub id: String,
    pub chat_id: String,
    pub created: i64,
    pub modified: i64,
    pub sender: String,
    /// Sanitized plain-text body ready for terminal rendering.
    pub body: String,
    pub reply_to_id: Option<String>,
    /// Reactions attached to this message.
    pub reactions: Vec<Reaction>,
    /// Mentions referenced by this message.
    pub mentions: Vec<Mention>,
    /// Whether the signed-in user has read this message.
    pub is_read: bool,
}

pub struct ReactionView {
    pub kind: Seq<char>,
    pub user_id: Seq<char>,
    pub display_name: Seq<char>,
}

pub struct MentionView {
    pub user_id: Option<Seq<char>>,
    pub display_name: Seq<char>,
    pub offset: usize,
    pub length: usize,
}

pub struct MessageView {
    pub id: Seq<char>,
    pub chat_id: Seq<char>,
    pub created: i64,
    pub modified: i64,
    pub sender: Seq<char>,
    pub body: Seq<char>,
    pub reply_to_id: Option<Seq<char>>,
    pub reactions: Seq<ReactionView>,
    pub mentions: Seq<MentionView>,
    pub is_read: bool,
}

/// The abstract value of an optional string.
pub open spec fn opt_str_view(o: Option<String>) -> Option<Seq<char>> {
    match o {
        Some(s) => Some(s@),
        None => None,
    }
}

impl View for Reaction {
    type V = ReactionView;

    open spec fn view(&self) -> ReactionView {
        ReactionView { kind: self.kind@, user_id: self.user_id@, display_name: self.display_name@ }
    }
}

impl View for Mention {
    type V = MentionView;

    open spec fn view(&self) -> MentionView {
        MentionView {
            user_id: opt_str_view(self.user_id),
            display_name: self.display_name@,
            offset: self.offset,
            length: self.length,
        }
    }
}

impl View for ChatMessage {
    type V = MessageView;

    open spec fn view(&self) -> MessageView {
        MessageView {
            id: self.id@,
            chat_id: self.chat_id@,
            created: self.created,
            modified: self.modified,
            sender: self.sender@,
            body: self.body@,
            reply_to_id: opt_str_view(self.reply_to_id),
            reactions: self.reactions@.map_values(|r: Reaction| r@),
            mentions: self.mentions@.map_values(|m: Mention| m@),
            is_read: self.is_read,
        }
    }
}

/// Copy of an optional string.
pub fn copy_opt_string(o: &Option<String>) -> (r: Option<String>)
    ensures
        opt_str_view(r) == opt_str_view(*o),
{
    match o {
        Some(s) => Some(s.clone()),
        None => None,
    }
}

/// Equality of optional strings by value.
pub fn opt_string_eq(a: &Option<String>, b: &Option<String>) -> (r: bool)
    ensures
        r == (opt_str_view(*a) == opt_str_view(*b)),
{
    match (a, b) {
        (Some(x), Some(y)) => *x == *y,
        (None, None) => true,
        _ => false,
    }
}

impl Reaction {
    /// A value-equal copy.
    pub fn duplicate(&self) -> (r: Reaction)
        ensures
            r@ == self@,
    {
        Reaction {
            kind: self.kind.clone(),
            user_id: self.user_id.clone(),
            display_name: self.display_name.clone(),
        }
    }

    /// Value equality.
    pub fn same_as(&self, other: &Reaction) -> (r: bool)
        ensures
            r == (self@ == other@),
    {
        self.kind == other.kind && self.user_id == other.user_id && self.display_name
            == other.display_name
    }
}

impl Mention {
    /// A value-equal copy.
    pub fn duplicate(&self) -> (r: Mention)
        ensures
            r@ == self@,
    {
        Mention {
            user_id: copy_opt_string(&self.user_id),
            display_name: self.display_name.clone(),
            offset: self.offset,
            length: self.length,
        }
    }

    /// Value equality.
    pub fn same_as(&self, other: &Mention) -> (r: bool)
        ensures
            r == (self@ == other@),
    {
        opt_string_eq(&self.user_id, &other.user_id) && self.display_name == other.display_name
            && self.offset == other.offset && self.length == other.length
    }
}

fn copy_reactions(v: &Vec<Reaction>) -> (r: Vec<Reaction>)
    ensures
        r@.map_values(|x: Reaction| x@) == v@.map_values(|x: Reaction| x@),
{
    let mut out: Vec<Reaction> = Vec::new();
    let mut i: usize = 0;
    while i < v.len()
        invariant
            i <= v.len(),
            out@.len() == i,
            forall|j: int| 0 <= j < i ==> (#[trigger] out@[j])@ == v@[j]@,
        decreases v.len() - i,
    {
        out.push(v[i].duplicate());
        i = i + 1;
    }
    assert(out@.map_values(|x: Reaction| x@) =~= v@.map_values(|x: Reaction| x@));
    out
}

fn copy_mentions(v: &Vec<Mention>) -> (r: Vec<Mention>)
    ensures
        r@.map_values(|x: Mention| x@) == v@.map_values(|x: Mention| x@),
{
    let mut out: Vec<Mention> = Vec::new();
    let mut i: usize = 0;
    while i < v.len()
        invariant
            i <= v.len(),
            out@.len() == i,
            forall|j: int| 0 <= j < i ==> (#[trigger] out@[j])@ == v@[j]@,
        decreases v.len() - i,
    {
        out.push(v[i].duplicate());
        i = i + 1;
    }
    assert(out@.map_values(|x: Mention| x@) =~= v@.map_values(|x: Mention| x@));
    out
}

fn reactions_eq(a: &Vec<Reaction>, b: &Vec<Reaction>) -> (r: bool)
    ensures
        r == (a@.map_values(|x: Reaction| x@) == b@.map_values(|x: Reaction| x@)),
{
    let ghost av = a@.map_values(|x: Reaction| x@);
    let ghost bv = b@.map_values(|x: Reaction| x@);
    if a.len() != b.len() {
        assert(av.len() != bv.len());
        return false;
    }
    let mut i: usize = 0;
    while i < a.len()
        invariant
            i <= a.len(),
            a.len() == b.len(),
            av == a@.map_values(|x: Reaction| x@),
            bv == b@.map_values(|x: Reaction| x@),
            forall|j: int| 0 <= j < i ==> av[j] == bv[j],
        decreases a.len() - i,
    {
        if !a[i].same_as(&b[i]) {
            assert(av[i as int] != bv[i as int]);
            return false;
        }
        i = i + 1;
    }
    assert(av =~= bv);
    true
}

fn mentions_eq(a: &Vec<Mention>, b: &Vec<Mention>) -> (r: bool)
    ensures
        r == (a@.map_values(|x: Mention| x@) == b@.map_values(|x: Mention| x@)),
{
    let ghost av = a@.map_values(|x: Mention| x@);
    let ghost bv = b@.map_values(|x: Mention| x@);
    if a.len() != b.len() {
        assert(av.len() != bv.len());
        return false;
    }
    let mut i: usize = 0;
    while i < a.len()
        invariant
            i <= a.len(),
            a.len() == b.len(),
            av == a@.map_values(|x: Mention| x@),
            bv == b@.map_values(|x: Mention| x@),
            forall|j: int| 0 <= j < i ==> av[j] == bv[j],
        decreases a.len() - i,
    {
        if !a[i].same_as(&b[i]) {
            assert(av[i as int] != bv[i as int]);
            return false;
        }
        i = i + 1;
    }
    assert(av =~= bv);
    true
}

impl ChatMessage {
    /// A value-equal copy.
    pub fn duplicate(&self) -> (r: ChatMessage)
        ensures
            r@ == self@,
    {
        ChatMessage {
            id: self.id.clone(),
            chat_id: self.chat_id.clone(),
            created: self.created,
            modified: self.modified,
            sender: self.sender.clone(),
            body: self.body.clone(),
            reply_to_id: copy_opt_string(&self.reply_to_id),
            reactions: copy_reactions(&self.reactions),
            mentions: copy_mentions(&self.mentions),
            is_read: self.is_read,
        }
    }

    /// Field-by-field value equality (the derived `==`).
    pub fn same_as(&self, other: &ChatMessage) -> (r: bool)
        ensures
            r == (self@ == other@),
    {
        self.id == other.id && self.chat_id == other.chat_id && self.created == other.created
            && self.modified == other.modified && self.sender == other.sender && self.body
            == other.body && opt_string_eq(&self.reply_to_id, &other.reply_to_id)
            && reactions_eq(&self.reactions, &other.reactions) && mentions_eq(
            &self.mentions,
            &other.mentions,
        ) && self.is_read == other.is_read
    }
}


/// The value views of a message sequence.
pub open spec fn views(s: Seq<ChatMessage>) -> Seq<MessageView> {
    s.map_values(|m: ChatMessage| m@)
}

/// Index in `d` of the first message whose id is `id`, or -1.
pub open spec fn first_with_id(d: Seq<ChatMessage>, id: Seq<char>) -> int
    decreases d.len(),
{
    if d.len() == 0 {
        -1
    } else if first_with_id(d.drop_last(), id) >= 0 {
        first_with_id(d.drop_last(), id)
    } else if d.last().id@ == id {
        d.len() - 1
    } else {
        -1
    }
}

pub proof fn lemma_first_with_id(d: Seq<ChatMessage>, id: Seq<char>)
    ensures
        -1 <= first_with_id(d, id) < d.len(),
        first_with_id(d, id) >= 0 ==> d[first_with_id(d, id)].id@ == id,
        forall|k: int|
            0 <= k < d.len() && (first_with_id(d, id) < 0 || k < first_with_id(d, id)) ==> (
            #[trigger] d[k]).id@ != id,
    decreases d.len(),
{
    if d.len() > 0 {
        lemma_first_with_id(d.drop_last(), id);
        assert forall|k: int| 0 <= k < d.len() - 1 implies d.drop_last()[k] == d[k] by {}
    }
}

/// One copy per id, in order of first appearance: the latest-modified copy,
/// and among equally modified copies the first one seen.
pub open spec fn dedupe_spec(s: Seq<ChatMessage>) -> Seq<ChatMessage>
    decreases s.len(),
{
    if s.len() == 0 {
        s
    } else {
        let d = dedupe_spec(s.drop_last());
        let m = s.last();
        let j = first_with_id(d, m.id@);
        if j < 0 {
            d.push(m)
        } else if m.modified > d[j].modified {
            d.update(j, m)
        } else {
            d
        }
    }
}

/// Exec search for the first message with the given id.
pub fn find_id(d: &Vec<ChatMessage>, id: &String) -> (r: Option<usize>)
    ensures
        match r {
            Some(j) => first_with_id(d@, id@) == j && j < d.len(),
            None => first_with_id(d@, id@) < 0,
        },
{
    proof {
        lemma_first_with_id(d@, id@);
    }
    let mut j: usize = 0;
    while j < d.len()
        invariant
            j <= d.len(),
            forall|k: int| 0 <= k < j ==> (#[trigger] d@[k]).id@ != id@,
            -1 <= first_with_id(d@, id@) < d.len(),
            first_with_id(d@, id@) >= 0 ==> d@[first_with_id(d@, id@)].id@ == id@,
            forall|k: int|
                0 <= k < d.len() && (first_with_id(d@, id@) < 0 || k < first_with_id(d@, id@))
                    ==> (#[trigger] d@[k]).id@ != id@,
        decreases d.len() - j,
    {
        if d[j].id == *id {
            return Some(j);
        }
        j = j + 1;
    }
    None
}

/// Deduplicate by message id, keeping the most recently modified copy,
/// then order the survivors.
pub fn dedupe_messages(msgs: Vec<ChatMessage>) -> (r: Vec<ChatMessage>)
    ensures
        is_stable_order_of(r@, dedupe_spec(msgs@)),
{
    let ghost src = msgs@;
    let mut best: Vec<ChatMessage> = Vec::new();
    for m in it: msgs
        invariant
            it.seq() == src,
            best@ == dedupe_spec(src.take(it.index() as int)),
    {
        proof {
            assert(src.take(it.index() + 1).drop_last() =~= src.take(it.index() as int));
            assert(src.take(it.index() + 1).last() == m);
        }
        match find_id(&best, &m.id) {
            Some(j) => {
                if m.modified > best[j].modified {
                    best.set(j, m);
                }
            },
            None => {
                best.push(m);
            },
        }
    }
    proof {
        assert(src.take(src.len() as int) =~= src);
    }
    order_messages(&mut best);
    best
}


/// The cached copy a fetched message is compared against: the last cached
/// message with that id (a later entry overrides an earlier one).
pub open spec fn cached_copy(cached: Seq<ChatMessage>, id: Seq<char>) -> Option<ChatMessage>
    decreases cached.len(),
{
    if cached.len() == 0 {
        None
    } else if cached.last().id@ == id {
        Some(cached.last())
    } else {
        cached_copy(cached.drop_last(), id)
    }
}

/// A fetched message is new or updated unless its cached copy is value-equal.
pub open spec fn changed_pred(cached: Seq<ChatMessage>) -> spec_fn(ChatMessage) -> bool {
    |m: ChatMessage|
        match cached_copy(cached, m.id@) {
            Some(c) => c@ != m@,
            None => true,
        }
}

/// Some message of `s` has this id.
pub open spec fn has_id(s: Seq<ChatMessage>, id: Seq<char>) -> bool {
    exists|i: int| 0 <= i < s.len() && (#[trigger] s[i]).id@ == id
}

/// A cached message is gone when no fetched message carries its id.
pub open spec fn absent_pred(fetched: Seq<ChatMessage>) -> spec_fn(ChatMessage) -> bool {
    |c: ChatMessage| !has_id(fetched, c.id@)
}

/// Exec lookup of the cached copy.
fn find_cached(cached: &[ChatMessage], id: &String) -> (r: Option<usize>)
    ensures
        match r {
            Some(j) => j < cached@.len() && cached_copy(cached@, id@) == Some(cached@[j as int]),
            None => cached_copy(cached@, id@) is None,
        },
{
    let mut j: usize = cached.len();
    proof {
        assert(cached@.take(j as int) =~= cached@);
    }
    while j > 0
        invariant
            j <= cached@.len(),
            cached_copy(cached@, id@) == cached_copy(cached@.take(j as int), id@),
        decreases j,
    {
        proof {
            assert(cached@.take(j as int).drop_last() =~= cached@.take(j - 1));
        }
        if cached[j - 1].id == *id {
            return Some(j - 1);
        }
        j = j - 1;
    }
    None
}

/// Exec check whether some message carries the id.
fn contains_id(s: &[ChatMessage], id: &String) -> (r: bool)
    ensures
        r == has_id(s@, id@),
{
    let mut j: usize = 0;
    while j < s.len()
        invariant
            j <= s@.len(),
            forall|k: int| 0 <= k < j ==> (#[trigger] s@[k]).id@ != id@,
        decreases s.len() - j,
    {
        if s[j].id == *id {
            return true;
        }
        j = j + 1;
    }
    false
}

/// Diff a freshly fetched page against cached messages.
/// Returns `(new_or_updated, deleted_ids)`; deletion is inferred from ids
/// present in cache but absent from a complete fetch.
pub fn diff_sync(cached: &[ChatMessage], fetched: &[ChatMessage], fetch_is_complete: bool) -> (r: (
    Vec<ChatMessage>,
    Vec<String>,
))
    ensures
        views(r.0@) == views(fetched@.filter(changed_pred(cached@))),
        r.1@.map_values(|s: String| s@) == (if fetch_is_complete {
            cached@.filter(absent_pred(fetched@)).map_values(|c: ChatMessage| c.id@)
        } else {
            Seq::<Seq<char>>::empty()
        }),
{
    let mut changed: Vec<ChatMessage> = Vec::new();
    let mut i: usize = 0;
    while i < fetched.len()
        invariant
            i <= fetched@.len(),
            views(changed@) == views(fetched@.take(i as int).filter(changed_pred(cached@))),
        decreases fetched.len() - i,
    {
        let m = &fetched[i];
        let keep = match find_cached(cached, &m.id) {
            Some(j) => !cached[j].same_as(m),
            None => true,
        };
        proof {
            assert(fetched@.take(i + 1) =~= fetched@.take(i as int).push(fetched@[i as int]));
            fetched@.take(i as int).lemma_filter_push(fetched@[i as int], changed_pred(cached@));
        }
        if keep {
            let c = m.duplicate();
            proof {
                let f = fetched@.take(i as int).filter(changed_pred(cached@));
                assert(views(changed@.push(c)) =~= views(changed@).push(c@));
                assert(views(f.push(fetched@[i as int])) =~= views(f).push(fetched@[i as int]@));
            }
            changed.push(c);
        }
        i = i + 1;
    }
    proof {
        assert(fetched@.take(fetched@.len() as int) =~= fetched@);
    }
    let mut deleted: Vec<String> = Vec::new();
    if fetch_is_complete {
        let mut k: usize = 0;
        while k < cached.len()
            invariant
                k <= cached@.len(),
                deleted@.map_values(|s: String| s@) == cached@.take(k as int).filter(
                    absent_pred(fetched@),
                ).map_values(|c: ChatMessage| c.id@),
            decreases cached.len() - k,
        {
            let gone = !contains_id(fetched, &cached[k].id);
            proof {
                assert(cached@.take(k + 1) =~= cached@.take(k as int).push(cached@[k as int]));
                cached@.take(k as int).lemma_filter_push(cached@[k as int], absent_pred(fetched@));
            }
            if gone {
                let id = cached[k].id.clone();
                proof {
                    let f = cached@.take(k as int).filter(absent_pred(fetched@));
                    assert(deleted@.push(id).map_values(|s: String| s@) =~= deleted@.map_values(
                        |s: String| s@,
                    ).push(id@));
                    assert(f.push(cached@[k as int]).map_values(|c: ChatMessage| c.id@)
                        =~= f.map_values(|c: ChatMessage| c.id@).push(cached@[k as int].id@));
                }
                deleted.push(id);
            }
            k = k + 1;
        }
        proof {
            assert(cached@.take(cached@.len() as int) =~= cached@);
        }
    } else {
        proof {
            assert(deleted@.map_values(|s: String| s@) =~= Seq::<Seq<char>>::empty());
        }
    }
    (changed, deleted)
}

pub proof fn lemma_cached_copy_member(cached: Seq<ChatMessage>, id: Seq<char>)
    ensures
        cached_copy(cached, id) matches Some(c) ==> cached.contains(c),
    decreases cached.len(),
{
    if cached.len() > 0 {
        if cached.last().id@ != id {
            lemma_cached_copy_member(cached.drop_last(), id);
            if let Some(c) = cached_copy(cached.drop_last(), id) {
                let k = choose|k: int| 0 <= k < cached.drop_last().len() && cached.drop_last()[k] == c;
                assert(cached[k] == c);
            }
        } else {
            assert(cached[cached.len() - 1] == cached.last());
        }
    }
}

/// Law: a sync diff reports every fetched message that equals no cached
/// message, new or edited.
pub proof fn lemma_diff_reports_every_new_message(
    cached: Seq<ChatMessage>,
    fetched: Seq<ChatMessage>,
    i: int,
)
    requires
        0 <= i < fetched.len(),
        forall|j: int| 0 <= j < cached.len() ==> (#[trigger] cached[j])@ != fetched[i]@,
    ensures
        views(fetched.filter(changed_pred(cached))).contains(fetched[i]@),
{
    let m = fetched[i];
    lemma_cached_copy_member(cached, m.id@);
    if let Some(c) = cached_copy(cached, m.id@) {
        let k = choose|k: int| 0 <= k < cached.len() && cached[k] == c;
        assert(cached[k]@ != m@);
    }
    assert(changed_pred(cached)(m));
    fetched.lemma_filter_contains(changed_pred(cached), i);
    let f = fetched.filter(changed_pred(cached));
    let k = choose|k: int| 0 <= k < f.len() && f[k] == m;
    assert(views(f)[k] == m@);
}

/// No two messages of `s` share an id.
pub open spec fn unique_ids(s: Seq<ChatMessage>) -> bool {
    forall|i: int, j: int| 0 <= i < j < s.len() ==> (#[trigger] s[i]).id@ != (#[trigger] s[j]).id@
}

proof fn lemma_dedupe_unique(s: Seq<ChatMessage>)
    ensures
        unique_ids(dedupe_spec(s)),
    decreases s.len(),
{
    if s.len() > 0 {
        let d = dedupe_spec(s.drop_last());
        lemma_dedupe_unique(s.drop_last());
        let m = s.last();
        lemma_first_with_id(d, m.id@);
        let j = first_with_id(d, m.id@);
        let r = dedupe_spec(s);
        if j < 0 {
            assert forall|a: int, b: int| 0 <= a < b < r.len() implies (#[trigger] r[a]).id@
                != (#[trigger] r[b]).id@ by {
                if b == d.len() {
                    assert(d[a].id@ != m.id@);
                } else {
                    assert(r[a] == d[a] && r[b] == d[b]);
                }
            }
        } else if m.modified > d[j].modified {
            assert forall|a: int, b: int| 0 <= a < b < r.len() implies (#[trigger] r[a]).id@
                != (#[trigger] r[b]).id@ by {
                if a == j {
                    assert(r[b] == d[b]);
                    assert(d[j].id@ != d[b].id@);
                } else if b == j {
                    assert(r[a] == d[a]);
                    assert(d[a].id@ != d[j].id@);
                } else {
                    assert(r[a] == d[a] && r[b] == d[b]);
                }
            }
        }
    }
}

proof fn lemma_dedupe_of_unique(s: Seq<ChatMessage>)
    requires
        unique_ids(s),
    ensures
        dedupe_spec(s) == s,
    decreases s.len(),
{
    if s.len() > 0 {
        let init = s.drop_last();
        assert(unique_ids(init)) by {
            assert forall|i: int, j: int| 0 <= i < j < init.len() implies (#[trigger] init[i]).id@
                != (#[trigger] init[j]).id@ by {
                assert(init[i] == s[i] && init[j] == s[j]);
            }
        }
        lemma_dedupe_of_unique(init);
        lemma_first_with_id(init, s.last().id@);
        if first_with_id(init, s.last().id@) >= 0 {
            let k = first_with_id(init, s.last().id@);
            assert(s[k].id@ != s[s.len() - 1].id@);
        }
        assert(init.push(s.last()) =~= s);
    }
}

proof fn lemma_filter_two<A>(s: Seq<A>, p: spec_fn(A) -> bool, i: int, j: int)
    requires
        0 <= i < j < s.len(),
        p(s[i]),
        p(s[j]),
    ensures
        s.filter(p).len() >= 2,
    decreases s.len(),
{
    reveal(Seq::filter);
    let init = s.drop_last();
    if j == s.len() - 1 {
        assert(init[i] == s[i]);
        init.lemma_filter_contains(p, i);
        assert(init.filter(p).len() >= 1);
    } else {
        assert(init[i] == s[i] && init[j] == s[j]);
        lemma_filter_two(init, p, i, j);
        init.lemma_filter_len(p);
    }
}

proof fn lemma_filter_at_most_one<A>(s: Seq<A>, p: spec_fn(A) -> bool)
    requires
        forall|a: int, b: int| 0 <= a < b < s.len() ==> !(p(#[trigger] s[a]) && p(#[trigger] s[b])),
    ensures
        s.filter(p).len() <= 1,
    decreases s.len(),
{
    reveal(Seq::filter);
    if s.len() > 0 {
        let init = s.drop_last();
        if p(s.last()) {
            assert forall|a: int| 0 <= a < init.len() implies !p(#[trigger] init[a]) by {
                assert(init[a] == s[a]);
                assert(s[s.len() - 1] == s.last());
            }
            lemma_filter_none(init, p);
        } else {
            assert forall|a: int, b: int| 0 <= a < b < init.len() implies !(p(#[trigger] init[a])
                && p(#[trigger] init[b])) by {
                assert(init[a] == s[a] && init[b] == s[b]);
            }
            lemma_filter_at_most_one(init, p);
        }
    }
}

/// Messages with the same sort key share their id.
pub proof fn lemma_same_key_same_id(x: ChatMessage, y: ChatMessage)
    requires
        same_key(x, y),
    ensures
        x.id@ == y.id@,
{
    vstd::utf8::encode_utf8_decode_utf8(x.id@);
    vstd::utf8::encode_utf8_decode_utf8(y.id@);
}

/// A stable ordering of messages with distinct ids keeps them distinct.
pub proof fn lemma_stable_keeps_unique(r: Seq<ChatMessage>, s: Seq<ChatMessage>)
    requires
        is_stable_order_of(r, s),
        unique_ids(s),
    ensures
        unique_ids(r),
{
    assert forall|i: int, j: int| 0 <= i < j < r.len() implies (#[trigger] r[i]).id@
        != (#[trigger] r[j]).id@ by {
        if r[i].id@ == r[j].id@ {
            let a = r[i];
            let b = r[j];
            let pa = key_pred(a);
            let pb = key_pred(b);
            assert(pa(a));
            assert(pb(b));
            r.lemma_filter_contains(pa, i);
            r.lemma_filter_contains(pb, j);
            assert(key_class(r, a) == key_class(s, a));
            assert(key_class(r, b) == key_class(s, b));
            s.lemma_filter_contains_rev(pa, a);
            s.lemma_filter_contains_rev(pb, b);
            let p = choose|p: int| 0 <= p < s.len() && s[p] == a;
            let q = choose|q: int| 0 <= q < s.len() && s[q] == b;
            if p < q {
                assert(s[p].id@ != s[q].id@);
            } else if q < p {
                assert(s[q].id@ != s[p].id@);
            }
            assert(a == b);
            assert(pa(r[j]));
            lemma_filter_two(r, pa, i, j);
            assert forall|u: int, v: int| 0 <= u < v < s.len() implies !(pa(#[trigger] s[u])
                && pa(#[trigger] s[v])) by {
                if pa(s[u]) && pa(s[v]) {
                    lemma_same_key_same_id(s[u], a);
                    lemma_same_key_same_id(s[v], a);
                }
            }
            lemma_filter_at_most_one(s, pa);
        }
    }
}

/// Law: deduplicating a deduplicated list changes nothing: whatever
/// `dedupe_messages` returns, feeding it back returns the same list.
pub proof fn lemma_dedupe_idempotent(x: Seq<ChatMessage>, r: Seq<ChatMessage>, r2: Seq<ChatMessage>)
    requires
        is_stable_order_of(r, dedupe_spec(x)),
        is_stable_order_of(r2, dedupe_spec(r)),
    ensures
        r2 == r,
{
    lemma_dedupe_unique(x);
    lemma_stable_keeps_unique(r, dedupe_spec(x));
    lemma_dedupe_of_unique(r);
    lemma_stable_order_unique(r2, r);
}

} // verus!
