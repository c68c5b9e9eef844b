//! The message order: oldest first, ties broken by id.
//!
//! Ids compare by their UTF-8 bytes, lexicographically, as Rust's `String`
//! ordering does.
use vstd::prelude::*;
use vstd::utf8::encode_utf8;
use super::message::ChatMessage;

verus! {

/// Strict lexicographic order on byte strings.
pub open spec fn bytes_lt(a: Seq<u8>, b: Seq<u8>) -> bool
    decreases a.len(),
{
    if a.len() == 0 {
        b.len() > 0
    } else if b.len() == 0 {
        false
    } else if a[0] != b[0] {
        a[0] < b[0]
    } else {
        bytes_lt(a.drop_first(), b.drop_first())
    }
}

pub proof fn lemma_bytes_lt_irreflexive(a: Seq<u8>)
    ensures
        !bytes_lt(a, a),
    decreases a.len(),
{
    if a.len() > 0 {
        lemma_bytes_lt_irreflexive(a.drop_first());
    }
}

pub proof fn lemma_bytes_lt_trichotomy(a: Seq<u8>, b: Seq<u8>)
    ensures
        bytes_lt(a, b) || a == b || bytes_lt(b, a),
        !(bytes_lt(a, b) && bytes_lt(b, a)),
    decreases a.len(),
{
    if a.len() == 0 || b.len() == 0 {
        if a.len() == 0 && b.len() == 0 {
            assert(a =~= b);
        }
    } else if a[0] != b[0] {
    } else {
        lemma_bytes_lt_trichotomy(a.drop_first(), b.drop_first());
        if a.drop_first() == b.drop_first() {
            assert(a =~= seq![a[0]] + a.drop_first());
            assert(b =~= seq![b[0]] + b.drop_first());
        }
    }
}

pub proof fn lemma_bytes_lt_transitive(a: Seq<u8>, b: Seq<u8>, c: Seq<u8>)
    requires
        bytes_lt(a, b),
        bytes_lt(b, c),
    ensures
        bytes_lt(a, c),
    decreases a.len(),
{
    if a.len() > 0 && b.len() > 0 && c.len() > 0 && a[0] == b[0] && b[0] == c[0] {
        lemma_bytes_lt_transitive(a.drop_first(), b.drop_first(), c.drop_first());
    }
}

/// Comparing after a common prefix of length `i`.
pub proof fn lemma_bytes_lt_skip(a: Seq<u8>, b: Seq<u8>, i: int)
    requires
        0 <= i <= a.len(),
        i <= b.len(),
        a.take(i) == b.take(i),
    ensures
        bytes_lt(a, b) == bytes_lt(a.skip(i), b.skip(i)),
    decreases i,
{
    if i > 0 {
        assert(a[0] == a.take(i)[0]);
        assert(b[0] == b.take(i)[0]);
        assert(a.drop_first().take(i - 1) =~= a.take(i).drop_first());
        assert(b.drop_first().take(i - 1) =~= b.take(i).drop_first());
        lemma_bytes_lt_skip(a.drop_first(), b.drop_first(), i - 1);
        assert(a.drop_first().skip(i - 1) =~= a.skip(i));
        assert(b.drop_first().skip(i - 1) =~= b.skip(i));
    } else {
        assert(a.skip(0) =~= a);
        assert(b.skip(0) =~= b);
    }
}

/// Exec lexicographic comparison of two byte strings.
pub fn bytes_less(a: &[u8], b: &[u8]) -> (r: bool)
    ensures
        r == bytes_lt(a@, b@),
{
    let mut i: usize = 0;
    while i < a.len() && i < b.len()
        invariant
            i <= a@.len(),
            i <= b@.len(),
            a@.take(i as int) == b@.take(i as int),
        decreases a.len() - i,
    {
        if a[i] != b[i] {
            proof {
                lemma_bytes_lt_skip(a@, b@, i as int);
                assert(a@.skip(i as int)[0] == a@[i as int]);
                assert(b@.skip(i as int)[0] == b@[i as int]);
            }
            return a[i] < b[i];
        }
        proof {
            assert(a@.take(i + 1) =~= a@.take(i as int).push(a@[i as int]));
            assert(b@.take(i + 1) =~= b@.take(i as int).push(b@[i as int]));
        }
        i = i + 1;
    }
    proof {
        lemma_bytes_lt_skip(a@, b@, i as int);
    }
    i < b.len()
}

/// The UTF-8 bytes of a message's id.
pub open spec fn id_bytes(m: ChatMessage) -> Seq<u8> {
    encode_utf8(m.id@)
}

/// `a` sorts strictly before `b`: older, or as old with a smaller id.
pub open spec fn msg_before(a: ChatMessage, b: ChatMessage) -> bool {
    a.created < b.created || (a.created == b.created && bytes_lt(id_bytes(a), id_bytes(b)))
}

/// `a` and `b` share their sort key (creation instant and id).
pub open spec fn same_key(a: ChatMessage, b: ChatMessage) -> bool {
    a.created == b.created && id_bytes(a) == id_bytes(b)
}

/// The messages of `s` whose sort key equals that of `x`, in their order in `s`.
pub open spec fn key_class(s: Seq<ChatMessage>, x: ChatMessage) -> Seq<ChatMessage> {
    s.filter(key_pred(x))
}

/// Membership in the sort-key group of `x`.
pub open spec fn key_pred(x: ChatMessage) -> spec_fn(ChatMessage) -> bool {
    |m: ChatMessage| same_key(m, x)
}

/// No message of `s` sorts before an earlier one.
pub open spec fn is_ordered(s: Seq<ChatMessage>) -> bool {
    forall|i: int, j: int| 0 <= i < j < s.len() ==> !msg_before(#[trigger] s[j], #[trigger] s[i])
}

/// `r` is the stable ordering of `s`: ordered, and every group of messages
/// sharing a sort key keeps its relative order from `s`.
pub open spec fn is_stable_order_of(r: Seq<ChatMessage>, s: Seq<ChatMessage>) -> bool {
    &&& r.len() == s.len()
    &&& is_ordered(r)
    &&& forall|x: ChatMessage| #[trigger] key_class(r, x) == key_class(s, x)
}

pub proof fn lemma_before_facts(a: ChatMessage, b: ChatMessage, c: ChatMessage)
    ensures
        !msg_before(a, a),
        same_key(a, a),
        msg_before(a, b) || same_key(a, b) || msg_before(b, a),
        msg_before(a, b) ==> !same_key(a, b) && !msg_before(b, a),
        msg_before(a, b) && msg_before(b, c) ==> msg_before(a, c),
        same_key(a, b) ==> (msg_before(a, c) == msg_before(b, c)) && (msg_before(c, a)
            == msg_before(c, b)) && same_key(b, a),
        same_key(a, b) && same_key(b, c) ==> same_key(a, c),
{
    lemma_bytes_lt_irreflexive(id_bytes(a));
    lemma_bytes_lt_trichotomy(id_bytes(a), id_bytes(b));
    lemma_bytes_lt_trichotomy(id_bytes(b), id_bytes(c));
    lemma_bytes_lt_trichotomy(id_bytes(a), id_bytes(c));
    if msg_before(a, b) && msg_before(b, c) && a.created == b.created && b.created == c.created {
        lemma_bytes_lt_transitive(id_bytes(a), id_bytes(b), id_bytes(c));
    }
}

/// Not-before is transitive (the order is a strict weak order).
pub proof fn lemma_not_before_transitive(a: ChatMessage, b: ChatMessage, c: ChatMessage)
    requires
        !msg_before(b, a),
        !msg_before(c, b),
    ensures
        !msg_before(c, a),
{
    lemma_before_facts(a, b, c);
    lemma_before_facts(b, c, a);
    lemma_before_facts(c, a, b);
    lemma_before_facts(a, c, b);
    lemma_before_facts(c, b, a);
    lemma_before_facts(b, a, c);
}

/// Exec comparison: `a` sorts strictly before `b`.
pub fn message_before(a: &ChatMessage, b: &ChatMessage) -> (r: bool)
    ensures
        r == msg_before(*a, *b),
{
    if a.created != b.created {
        return a.created < b.created;
    }
    bytes_less(a.id.as_str().as_bytes(), b.id.as_str().as_bytes())
}


/// A filter that keeps nothing of `s` gives the empty sequence.
pub proof fn lemma_filter_none<A>(s: Seq<A>, p: spec_fn(A) -> bool)
    requires
        forall|i: int| 0 <= i < s.len() ==> !p(#[trigger] s[i]),
    ensures
        s.filter(p) =~= Seq::<A>::empty(),
    decreases s.len(),
{
    reveal(Seq::filter);
    if s.len() > 0 {
        lemma_filter_none(s.drop_last(), p);
    }
}

/// Inserting `x` at the first position after every message that does not
/// sort after it keeps a stable ordering stable.
proof fn lemma_insert_step(pre: Seq<ChatMessage>, src: Seq<ChatMessage>, x: ChatMessage, p: int)
    requires
        is_stable_order_of(pre, src),
        0 <= p <= pre.len(),
        forall|k: int| p <= k < pre.len() ==> msg_before(x, #[trigger] pre[k]),
        p > 0 ==> !msg_before(x, pre[p - 1]),
    ensures
        is_stable_order_of(pre.insert(p, x), src.push(x)),
{
    let new = pre.insert(p, x);
    assert forall|a: int, b: int| 0 <= a < b < new.len() implies !msg_before(
        #[trigger] new[b],
        #[trigger] new[a],
    ) by {
        if b < p {
            assert(new[a] == pre[a] && new[b] == pre[b]);
        } else if a > p {
            assert(new[a] == pre[a - 1] && new[b] == pre[b - 1]);
        } else if a == p {
            assert(new[a] == x && new[b] == pre[b - 1]);
            lemma_before_facts(x, pre[b - 1], x);
        } else if b == p {
            assert(new[b] == x && new[a] == pre[a]);
            if a < p - 1 {
                lemma_not_before_transitive(pre[a], pre[p - 1], x);
            }
        } else {
            assert(a < p && b > p);
            assert(new[a] == pre[a] && new[b] == pre[b - 1]);
        }
    }
    assert forall|y: ChatMessage| #[trigger] key_class(new, y) == key_class(src.push(x), y) by {
        let f = key_pred(y);
        let left = pre.take(p);
        let right = pre.skip(p);
        assert(new =~= left + seq![x] + right);
        assert(pre =~= left + right);
        Seq::filter_distributes_over_add(left + seq![x], right, f);
        Seq::filter_distributes_over_add(left, seq![x], f);
        Seq::filter_distributes_over_add(left, right, f);
        src.lemma_filter_push(x, f);
        Seq::<ChatMessage>::empty().lemma_filter_push(x, f);
        reveal(Seq::filter);
        assert(seq![x] =~= Seq::<ChatMessage>::empty().push(x));
        assert(Seq::<ChatMessage>::empty().filter(f) =~= Seq::<ChatMessage>::empty());
        assert(key_class(pre, y) == key_class(src, y));
        if same_key(x, y) {
            assert forall|i: int| 0 <= i < right.len() implies !f(#[trigger] right[i]) by {
                assert(right[i] == pre[p + i]);
                lemma_before_facts(x, right[i], y);
                lemma_before_facts(right[i], x, y);
                lemma_before_facts(x, y, right[i]);
            }
            lemma_filter_none(right, f);
            assert(left.filter(f) + seq![x] =~= left.filter(f).push(x));
            assert(new.filter(f) =~= (left.filter(f) + right.filter(f)).push(x));
        } else {
            assert(!f(x));
            assert(new.filter(f) =~= left.filter(f) + right.filter(f));
        }
    }
}

/// Sort messages oldest-first; tie-break on id for determinism.
///
/// Stable: messages sharing creation instant and id keep their input order.
pub fn order_messages(msgs: &mut Vec<ChatMessage>)
    ensures
        is_stable_order_of(final(msgs)@, old(msgs)@),
{
    let ghost orig = msgs@;
    let n = msgs.len();
    let mut i: usize = 0;
    proof {
        assert(msgs@.take(0) =~= orig.take(0));
        reveal(Seq::filter);
    }
    while i < n
        invariant
            n == msgs.len(),
            n == orig.len(),
            i <= n,
            is_stable_order_of(msgs@.take(i as int), orig.take(i as int)),
            msgs@.skip(i as int) == orig.skip(i as int),
        decreases n - i,
    {
        let ghost pre = msgs@.take(i as int);
        let ghost x = msgs@[i as int];
        proof {
            assert(x == msgs@.skip(i as int)[0]);
            assert(x == orig[i as int]);
        }
        let mut p = i;
        while p > 0 && message_before(&msgs[i], &msgs[p - 1])
            invariant
                p <= i < n,
                n == msgs.len(),
                pre == msgs@.take(i as int),
                x == msgs@[i as int],
                forall|k: int| p <= k < i ==> msg_before(x, #[trigger] pre[k]),
            decreases p,
        {
            proof {
                assert(pre[p - 1] == msgs@[p - 1]);
            }
            p = p - 1;
        }
        proof {
            if p > 0 {
                assert(pre[p - 1] == msgs@[p - 1]);
            }
            lemma_insert_step(pre, orig.take(i as int), x, p as int);
            assert(orig.take(i + 1) =~= orig.take(i as int).push(x));
        }
        let ghost before_move = msgs@;
        if p < i {
            let m = msgs.remove(i);
            msgs.insert(p, m);
        }
        proof {
            assert(msgs@.take(i + 1) =~= pre.insert(p as int, x));
            assert(msgs@.skip(i + 1) =~= before_move.skip(i + 1));
            assert(before_move.skip(i + 1) =~= orig.skip(i + 1)) by {
                assert(before_move.skip(i + 1) =~= before_move.skip(i as int).drop_first());
                assert(orig.skip(i + 1) =~= orig.skip(i as int).drop_first());
            }
        }
        i = i + 1;
    }
    proof {
        assert(msgs@.take(n as int) =~= msgs@);
        assert(orig.take(n as int) =~= orig);
    }
}


/// Same-key membership tests agree for messages that share a key.
proof fn lemma_key_pred_congruent(a: ChatMessage, b: ChatMessage)
    requires
        same_key(a, b),
    ensures
        key_pred(a) == key_pred(b),
{
    assert forall|m: ChatMessage| #[trigger] same_key(m, a) == same_key(m, b) by {
        lemma_before_facts(m, a, b);
        lemma_before_facts(a, b, m);
        lemma_before_facts(m, b, a);
    }
    assert(key_pred(a) =~= key_pred(b));
}

/// The last message of a non-empty sequence closes its own key group.
proof fn lemma_class_of_last(s: Seq<ChatMessage>, y: ChatMessage)
    requires
        s.len() > 0,
    ensures
        key_class(s, y) == if same_key(s.last(), y) {
            key_class(s.drop_last(), y).push(s.last())
        } else {
            key_class(s.drop_last(), y)
        },
{
    assert(s.drop_last().push(s.last()) =~= s);
    s.drop_last().lemma_filter_push(s.last(), key_pred(y));
}

/// Some message of `s` shares the key of `x` when its key group is non-empty.
proof fn lemma_class_witness(s: Seq<ChatMessage>, x: ChatMessage) -> (k: int)
    requires
        key_class(s, x).len() > 0,
    ensures
        0 <= k < s.len(),
        same_key(s[k], x),
{
    let c = key_class(s, x);
    s.lemma_filter_pred(key_pred(x), c.len() - 1);
    assert(c.contains(c[c.len() - 1]));
    s.lemma_filter_contains_rev(key_pred(x), c[c.len() - 1]);
    let k = choose|k: int| 0 <= k < s.len() && s[k] == c[c.len() - 1];
    k
}

/// Two ordered sequences with the same key groups are equal: the stable
/// ordering of a sequence is unique.
pub proof fn lemma_stable_order_unique(r1: Seq<ChatMessage>, r2: Seq<ChatMessage>)
    requires
        is_ordered(r1),
        is_ordered(r2),
        forall|x: ChatMessage| #[trigger] key_class(r1, x) == key_class(r2, x),
    ensures
        r1 == r2,
    decreases r1.len() + r2.len(),
{
    reveal(Seq::filter);
    if r1.len() == 0 || r2.len() == 0 {
        if r1.len() > 0 {
            lemma_class_of_last(r1, r1.last());
            lemma_before_facts(r1.last(), r1.last(), r1.last());
            assert(key_class(r2, r1.last()).len() == 0);
        } else if r2.len() > 0 {
            lemma_class_of_last(r2, r2.last());
            lemma_before_facts(r2.last(), r2.last(), r2.last());
            assert(key_class(r1, r2.last()).len() == 0);
        } else {
            assert(r1 =~= r2);
        }
    } else {
        let a = r1.last();
        let b = r2.last();
        lemma_before_facts(a, a, b);
        lemma_before_facts(b, b, a);
        lemma_class_of_last(r1, a);
        lemma_class_of_last(r2, b);
        // Some message of r2 shares a's key, so b does not sort before a.
        let k2 = lemma_class_witness(r2, a);
        if k2 < r2.len() - 1 {
            assert(!msg_before(r2[r2.len() - 1], r2[k2]));
        }
        lemma_before_facts(r2[k2], a, b);
        // Symmetrically a does not sort before b.
        assert(key_class(r2, b).len() > 0);
        let k1 = lemma_class_witness(r1, b);
        if k1 < r1.len() - 1 {
            assert(!msg_before(r1[r1.len() - 1], r1[k1]));
        }
        lemma_before_facts(r1[k1], b, a);
        lemma_before_facts(a, b, a);
        assert(same_key(a, b));
        lemma_key_pred_congruent(a, b);
        assert(key_class(r2, a) == key_class(r2, b));
        assert(key_class(r1, a) == key_class(r2, a));
        assert(key_class(r1, a).last() == a);
        assert(key_class(r2, b).last() == b);
        assert(a == b);
        let d1 = r1.drop_last();
        let d2 = r2.drop_last();
        assert forall|y: ChatMessage| #[trigger] key_class(d1, y) == key_class(d2, y) by {
            lemma_class_of_last(r1, y);
            lemma_class_of_last(r2, y);
            if same_key(a, y) {
                assert(key_class(r1, y) == key_class(r2, y));
                assert(key_class(d1, y) =~= key_class(r1, y).drop_last());
                assert(key_class(d2, y) =~= key_class(r2, y).drop_last());
            } else {
                assert(key_class(r1, y) == key_class(r2, y));
            }
        }
        assert forall|i: int, j: int| 0 <= i < j < d1.len() implies !msg_before(
            #[trigger] d1[j],
            #[trigger] d1[i],
        ) by {
            assert(d1[i] == r1[i] && d1[j] == r1[j]);
        }
        assert forall|i: int, j: int| 0 <= i < j < d2.len() implies !msg_before(
            #[trigger] d2[j],
            #[trigger] d2[i],
        ) by {
            assert(d2[i] == r2[i] && d2[j] == r2[j]);
        }
        lemma_stable_order_unique(d1, d2);
        assert(r1 =~= d1.push(a));
        assert(r2 =~= d2.push(b));
    }
}

/// Ordering is a function of its input: two stable orderings of the same
/// sequence are the same sequence.
pub proof fn lemma_order_deterministic(s: Seq<ChatMessage>, r1: Seq<ChatMessage>, r2: Seq<ChatMessage>)
    requires
        is_stable_order_of(r1, s),
        is_stable_order_of(r2, s),
    ensures
        r1 == r2,
{
    assert forall|x: ChatMessage| #[trigger] key_class(r1, x) == key_class(r2, x) by {
        assert(key_class(r1, x) == key_class(s, x));
        assert(key_class(r2, x) == key_class(s, x));
    }
    lemma_stable_order_unique(r1, r2);
}

/// Ordering is idempotent: an ordered sequence is its own stable ordering,
/// so ordering it again changes nothing.
pub proof fn lemma_order_idempotent(s: Seq<ChatMessage>, r: Seq<ChatMessage>)
    requires
        is_ordered(s),
        is_stable_order_of(r, s),
    ensures
        r == s,
{
    assert forall|x: ChatMessage| #[trigger] key_class(r, x) == key_class(s, x) by {}
    lemma_stable_order_unique(r, s);
}

/// A stable ordering holds exactly the messages of its input.
pub proof fn lemma_stable_order_same_elements(r: Seq<ChatMessage>, s: Seq<ChatMessage>, x: ChatMessage)
    requires
        is_stable_order_of(r, s),
    ensures
        r.contains(x) <==> s.contains(x),
{
    lemma_before_facts(x, x, x);
    if r.contains(x) {
        let i = choose|i: int| 0 <= i < r.len() && r[i] == x;
        r.lemma_filter_contains(key_pred(x), i);
        assert(key_class(r, x) == key_class(s, x));
        s.lemma_filter_contains_rev(key_pred(x), x);
    }
    if s.contains(x) {
        let i = choose|i: int| 0 <= i < s.len() && s[i] == x;
        s.lemma_filter_contains(key_pred(x), i);
        assert(key_class(r, x) == key_class(s, x));
        r.lemma_filter_contains_rev(key_pred(x), x);
    }
}

} // verus!
