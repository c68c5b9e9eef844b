//! Reply-thread tree builder.
//!
//! Roots (no `reply_to_id`, missing parent, or self-parent) sort oldest-first;
//! replies nest under their parent; cycles are cut so the builder never loops.
use vstd::prelude::*;
use super::message::{
    ChatMessage, first_with_id, lemma_first_with_id, find_id, unique_ids, lemma_same_key_same_id,
};
use super::order::{
    is_stable_order_of, order_messages, key_class, key_pred, same_key, lemma_filter_none,
    lemma_stable_order_unique,
};

verus! {

/// A root message with its nested replies.
#[derive(Debug, PartialEq, Eq)]
pub struct ThreadNode {
    pub message: ChatMessage,
    pub replies: Vec<ThreadNode>,
}

/// Last copy per id wins, in order of first appearance of each id.
pub open spec fn latest_per_id(s: Seq<ChatMessage>) -> Seq<ChatMessage>
    decreases s.len(),
{
    if s.len() == 0 {
        s
    } else {
        let d = latest_per_id(s.drop_last());
        let j = first_with_id(d, s.last().id@);
        if j < 0 {
            d.push(s.last())
        } else {
            d.update(j, s.last())
        }
    }
}

/// Position `x` reached after `k` steps along `next`; -1 once past a root.
pub open spec fn walk(next: spec_fn(int) -> int, x: int, k: nat) -> int
    decreases k,
{
    if x < 0 {
        -1
    } else if k == 0 {
        x
    } else {
        walk(next, next(x), (k - 1) as nat)
    }
}

/// The index of the message that `u[i]` replies to, or -1 when it replies to
/// nothing, to itself, or to a message not in `u`.
pub open spec fn reply_target(u: Seq<ChatMessage>, i: int) -> int {
    match u[i].reply_to_id {
        Some(p) => if p@ != u[i].id@ {
            first_with_id(u, p@)
        } else {
            -1
        },
        None => -1,
    }
}

/// Step along reply targets.
pub open spec fn target_step(u: Seq<ChatMessage>) -> spec_fn(int) -> int {
    |x: int| if 0 <= x < u.len() { reply_target(u, x) } else { -1 }
}

/// Step along kept parent links.
pub open spec fn parent_step(par: Seq<Option<usize>>) -> spec_fn(int) -> int {
    |x: int|
        if 0 <= x < par.len() {
            match par[x] {
                Some(p) => p as int,
                None => -1,
            }
        } else {
            -1
        }
}

/// Indices below `k` whose kept parent is `i`, ascending.
pub open spec fn children_upto(par: Seq<Option<usize>>, i: int, k: int) -> Seq<int>
    decreases k,
{
    if k <= 0 {
        Seq::empty()
    } else if par[k - 1] == Some(i as usize) && i >= 0 {
        children_upto(par, i, k - 1).push(k - 1)
    } else {
        children_upto(par, i, k - 1)
    }
}

/// Indices below `k` without a kept parent, ascending.
pub open spec fn roots_upto(par: Seq<Option<usize>>, k: int) -> Seq<int>
    decreases k,
{
    if k <= 0 {
        Seq::empty()
    } else if par[k - 1] is None {
        roots_upto(par, k - 1).push(k - 1)
    } else {
        roots_upto(par, k - 1)
    }
}

/// `t` is the thread rooted at `u[i]`: its message is `u[i]` and its replies
/// are the threads of `i`'s children, in order.
pub open spec fn is_thread_of(t: ThreadNode, u: Seq<ChatMessage>, par: Seq<Option<usize>>, i: int) -> bool
    decreases t,
{
    let kids = children_upto(par, i, par.len() as int);
    &&& 0 <= i < u.len()
    &&& t.message@ == u[i]@
    &&& t.replies@.len() == kids.len()
    &&& forall|j: int|
        0 <= j < kids.len() ==> is_thread_of(#[trigger] t.replies@[j], u, par, kids[j])
}

/// `par` keeps a subset of the reply links of `u`, cuts a link only when
/// following reply links from that message never reaches a root (a cycle),
/// and leaves no cycle: every walk up the kept links ends within `u.len()` steps.
pub open spec fn links_ok(u: Seq<ChatMessage>, par: Seq<Option<usize>>) -> bool {
    &&& par.len() == u.len()
    &&& forall|i: int| 0 <= i < par.len() && par[i] is Some ==> par[i]->0 == reply_target(u, i)
    &&& forall|i: int|
        0 <= i < par.len() && par[i] is None && reply_target(u, i) >= 0 ==> forall|k: nat|
            walk(target_step(u), i, k) >= 0
    &&& forall|i: int| 0 <= i < par.len() ==> walk(parent_step(par), i, u.len()) < 0
}

/// The forest `r` of messages `u` under the kept links `par`: one tree per
/// root, roots in order.
pub open spec fn is_forest_of(r: Seq<ThreadNode>, u: Seq<ChatMessage>, par: Seq<Option<usize>>) -> bool {
    let roots = roots_upto(par, par.len() as int);
    &&& links_ok(u, par)
    &&& r.len() == roots.len()
    &&& forall|j: int| 0 <= j < roots.len() ==> is_thread_of(#[trigger] r[j], u, par, roots[j])
}

pub proof fn lemma_walk_neg(next: spec_fn(int) -> int, x: int, k: nat)
    requires
        x < 0,
    ensures
        walk(next, x, k) == -1,
{
}

/// Walking `a + b` steps is walking `a` steps then `b` more.
pub proof fn lemma_walk_compose(next: spec_fn(int) -> int, x: int, a: nat, b: nat)
    ensures
        walk(next, x, a + b) == walk(next, walk(next, x, a), b),
    decreases a,
{
    if x < 0 {
    } else if a == 0 {
    } else {
        lemma_walk_compose(next, next(x), (a - 1) as nat, b);
        assert((a + b - 1) as nat == (a - 1) as nat + b);
    }
}

/// Once past a root, a walk stays there.
pub proof fn lemma_walk_monotone(next: spec_fn(int) -> int, x: int, k1: nat, k2: nat)
    requires
        k1 <= k2,
        walk(next, x, k1) < 0,
    ensures
        walk(next, x, k2) < 0,
{
    lemma_walk_compose(next, x, k1, (k2 - k1) as nat);
    assert(k1 + (k2 - k1) as nat == k2);
}

/// One more step.
pub proof fn lemma_walk_step(next: spec_fn(int) -> int, x: int, k: nat)
    ensures
        walk(next, x, k + 1) == walk(next, walk(next, x, k), 1),
{
    lemma_walk_compose(next, x, k, 1);
}

/// A walk that revisits a position never ends.
pub proof fn lemma_walk_revisit(next: spec_fn(int) -> int, x: int, a: nat, b: nat, k: nat)
    requires
        a < b,
        walk(next, x, a) == walk(next, x, b),
        forall|t: nat| t <= b ==> walk(next, x, t) >= 0,
    ensures
        walk(next, x, k) >= 0,
    decreases k,
{
    if k > b {
        let back = (k - (b - a)) as nat;
        lemma_walk_compose(next, x, b, (k - b) as nat);
        lemma_walk_compose(next, x, a, (k - b) as nat);
        assert(b + (k - b) as nat == k);
        assert(a + (k - b) as nat == back);
        lemma_walk_revisit(next, x, a, b, back);
    }
}

/// Cutting one link never turns a finite walk into an endless one.
pub proof fn lemma_cut_keeps_finite(par: Seq<Option<usize>>, y: int, x: int, k: nat)
    requires
        0 <= y < par.len(),
        walk(parent_step(par), x, k) < 0,
    ensures
        walk(parent_step(par.update(y, None)), x, k) < 0,
    decreases k,
{
    let p2 = par.update(y, None);
    if x < 0 {
    } else if k == 0 {
    } else if x == y {
        lemma_walk_neg(parent_step(p2), parent_step(p2)(x), (k - 1) as nat);
    } else {
        assert(parent_step(p2)(x) == parent_step(par)(x));
        lemma_cut_keeps_finite(par, y, parent_step(par)(x), (k - 1) as nat);
    }
}

/// Along an endless walk over kept links, kept links and reply links agree.
pub proof fn lemma_endless_follows_targets(u: Seq<ChatMessage>, par: Seq<Option<usize>>, x: int, k: nat)
    requires
        par.len() == u.len(),
        forall|i: int| 0 <= i < par.len() && par[i] is Some ==> par[i]->0 == reply_target(u, i),
        forall|t: nat| walk(parent_step(par), x, t) >= 0,
    ensures
        walk(target_step(u), x, k) == walk(parent_step(par), x, k),
    decreases k,
{
    if k > 0 {
        let nx = parent_step(par)(x);
        assert(walk(parent_step(par), x, 0) >= 0);
        assert(walk(parent_step(par), x, 1) >= 0);
        reveal_with_fuel(walk, 2);
        assert(nx >= 0);
        assert(target_step(u)(x) == nx);
        assert forall|t: nat| walk(parent_step(par), nx, t) >= 0 by {
            assert(walk(parent_step(par), x, t + 1) >= 0);
            assert((t + 1 - 1) as nat == t);
        }
        lemma_endless_follows_targets(u, par, nx, (k - 1) as nat);
    }
}

/// Number of `true` entries.
pub open spec fn count_true(s: Seq<bool>) -> nat
    decreases s.len(),
{
    if s.len() == 0 {
        0
    } else {
        count_true(s.drop_last()) + if s.last() {
            1nat
        } else {
            0nat
        }
    }
}

proof fn lemma_count_true_bound(s: Seq<bool>)
    ensures
        count_true(s) <= s.len(),
    decreases s.len(),
{
    if s.len() > 0 {
        lemma_count_true_bound(s.drop_last());
    }
}

proof fn lemma_count_true_set(s: Seq<bool>, i: int)
    requires
        0 <= i < s.len(),
        !s[i],
    ensures
        count_true(s.update(i, true)) == count_true(s) + 1,
    decreases s.len(),
{
    let s2 = s.update(i, true);
    if i == s.len() - 1 {
        assert(s2.drop_last() =~= s.drop_last());
    } else {
        assert(s2.drop_last() =~= s.drop_last().update(i, true));
        lemma_count_true_set(s.drop_last(), i);
    }
}

/// Last copy per id wins, first-appearance order.
fn latest_per_id_exec(msgs: Vec<ChatMessage>) -> (r: Vec<ChatMessage>)
    ensures
        r@ == latest_per_id(msgs@),
{
    let ghost src = msgs@;
    let mut acc: Vec<ChatMessage> = Vec::new();
    for m in it: msgs
        invariant
            it.seq() == src,
            acc@ == latest_per_id(src.take(it.index() as int)),
    {
        proof {
            assert(src.take(it.index() + 1).drop_last() =~= src.take(it.index() as int));
            assert(src.take(it.index() + 1).last() == m);
        }
        match find_id(&acc, &m.id) {
            Some(j) => {
                acc.set(j, m);
            },
            None => {
                acc.push(m);
            },
        }
    }
    proof {
        assert(src.take(src.len() as int) =~= src);
    }
    acc
}

/// The reply target of `u[i]`.
fn target_of(u: &Vec<ChatMessage>, i: usize) -> (r: Option<usize>)
    requires
        i < u@.len(),
    ensures
        match r {
            Some(p) => p == reply_target(u@, i as int) && p < u@.len(),
            None => reply_target(u@, i as int) < 0,
        },
{
    proof {
        if let Some(p) = u@[i as int].reply_to_id {
            lemma_first_with_id(u@, p@);
        }
    }
    match &u[i].reply_to_id {
        Some(p) => {
            if *p != u[i].id {
                find_id(u, p)
            } else {
                None
            }
        },
        None => None,
    }
}


/// Links point inside `u`.
pub open spec fn links_in_range(par: Seq<Option<usize>>) -> bool {
    forall|x: int| 0 <= x < par.len() && par[x] is Some ==> par[x]->0 < par.len()
}

/// The walk up `next` from `x` never passes a root: it goes round a loop.
pub open spec fn endless(next: spec_fn(int) -> int, x: int) -> bool {
    forall|k: nat| #[trigger] walk(next, x, k) >= 0
}

/// The reply link of each message of `u`, before any is cut.
pub open spec fn reply_links(u: Seq<ChatMessage>) -> Seq<Option<usize>> {
    Seq::new(
        u.len(),
        |i: int|
            if reply_target(u, i) >= 0 {
                Some(reply_target(u, i) as usize)
            } else {
                None
            },
    )
}

/// The links after visiting the first `k` messages in order: a visited
/// message whose walk up the links still kept never reaches a root has its
/// own link cut. Each loop thus loses the link of its first visited member,
/// and a message visited before it whose chain runs into the loop is cut too.
pub open spec fn cut_links(p0: Seq<Option<usize>>, k: int) -> Seq<Option<usize>>
    decreases k,
{
    if k <= 0 {
        p0
    } else {
        let p = cut_links(p0, k - 1);
        if endless(parent_step(p), k - 1) {
            p.update(k - 1, None)
        } else {
            p
        }
    }
}

/// Walk up the kept links from `i`; cut `i`'s own link when the walk comes
/// back to a message it already passed.
fn cut_cycles(u: &Vec<ChatMessage>, par: &mut Vec<Option<usize>>)
    requires
        old(par)@.len() == u@.len(),
        links_in_range(old(par)@),
        forall|x: int|
            0 <= x < old(par)@.len() && old(par)@[x] is Some ==> old(par)@[x]->0 == reply_target(
                u@,
                x,
            ),
        forall|x: int| 0 <= x < old(par)@.len() && old(par)@[x] is None ==> reply_target(u@, x) < 0,
    ensures
        links_ok(u@, final(par)@),
        links_in_range(final(par)@),
        final(par)@ == cut_links(old(par)@, old(par)@.len() as int),
{
    let n = par.len();
    let mut i: usize = 0;
    let ghost p0 = par@;
    while i < n
        invariant
            par@.len() == n,
            p0 == old(par)@,
            par@ == cut_links(p0, i as int),
            n == u@.len(),
            i <= n,
            links_in_range(par@),
            forall|x: int|
                0 <= x < par@.len() && par@[x] is Some ==> par@[x]->0 == reply_target(u@, x),
            forall|x: int|
                0 <= x < par@.len() && par@[x] is None && reply_target(u@, x) >= 0 ==> forall|k: nat|
                    walk(target_step(u@), x, k) >= 0,
            forall|x: int| 0 <= x < i ==> walk(parent_step(par@), x, n as nat) < 0,
        decreases n - i,
    {
        let ghost pstep = parent_step(par@);
        let ghost pre = par@;
        let mut visited: Vec<bool> = Vec::new();
        let mut z: usize = 0;
        while z < n
            invariant
                z <= n,
                visited@.len() == z,
                forall|q: int| 0 <= q < z ==> !visited@[q],
            decreases n - z,
        {
            visited.push(false);
            z = z + 1;
        }
        proof {
            assert(count_true(visited@) == 0) by {
                lemma_count_all_false(visited@);
            }
            lemma_count_true_set(visited@, i as int);
        }
        visited.set(i, true);
        let mut cursor: Option<usize> = par[i];
        let ghost mut steps: nat = 0;
        let mut cut = false;
        proof {
            reveal_with_fuel(walk, 2);
            assert(walk(pstep, i as int, 0) == i);
            assert forall|q: int| 0 <= q < n implies (visited@[q] <==> exists|t: nat|
                t <= steps && #[trigger] walk(pstep, i as int, t) == q) by {
                if q == i {
                    assert(walk(pstep, i as int, 0) == q);
                }
            }
        }
        while !cut && cursor.is_some()
            invariant
                par@ == pre,
                pstep == parent_step(pre),
                pre.len() == n,
                links_in_range(pre),
                n == u@.len(),
                i < n,
                visited@.len() == n,
                cursor == (if walk(pstep, i as int, steps + 1) >= 0 {
                    Some(walk(pstep, i as int, steps + 1) as usize)
                } else {
                    None::<usize>
                }),
                walk(pstep, i as int, steps + 1) < n,
                forall|t: nat| t <= steps ==> walk(pstep, i as int, t) >= 0,
                forall|q: int|
                    0 <= q < n ==> (visited@[q] <==> exists|t: nat|
                        t <= steps && #[trigger] walk(pstep, i as int, t) == q),
                count_true(visited@) == steps + 1,
                cut ==> walk(pstep, i as int, steps + 1) >= 0 && exists|t: nat|
                    t <= steps && #[trigger] walk(pstep, i as int, t) == walk(
                        pstep,
                        i as int,
                        steps + 1,
                    ),
            decreases n + 1 - steps - (if cut {
                1int
            } else {
                0int
            }),
        {
            proof {
                lemma_count_true_bound(visited@);
            }
            let p = cursor.unwrap();
            if visited[p] {
                cut = true;
            } else {
                proof {
                    lemma_count_true_set(visited@, p as int);
                }
                visited.set(p, true);
                cursor = par[p];
                proof {
                    let old_steps = steps;
                    steps = steps + 1;
                    lemma_walk_step(pstep, i as int, steps);
                    reveal_with_fuel(walk, 2);
                    assert(walk(pstep, i as int, steps) == p);
                    assert forall|q: int| 0 <= q < n implies (visited@[q] <==> exists|t: nat|
                        t <= steps && #[trigger] walk(pstep, i as int, t) == q) by {
                        if q == p {
                            assert(walk(pstep, i as int, steps) == q);
                        }
                        if exists|t: nat| t <= steps && #[trigger] walk(pstep, i as int, t) == q {
                            let t = choose|t: nat| t <= steps && #[trigger] walk(pstep, i as int, t) == q;
                            if t < steps {
                                assert(t <= old_steps);
                            }
                        }
                    }
                }
            }
        }
        proof {
            lemma_count_true_bound(visited@);
        }
        if cut {
            proof {
                let last = steps + 1;
                let t = choose|t: nat| t <= steps && #[trigger] walk(pstep, i as int, t) == walk(
                    pstep,
                    i as int,
                    last,
                );
                assert forall|k: nat| walk(pstep, i as int, k) >= 0 by {
                    assert forall|t2: nat| t2 <= last implies walk(pstep, i as int, t2) >= 0 by {
                        if t2 < last {
                            assert(t2 <= steps);
                        }
                    }
                    lemma_walk_revisit(pstep, i as int, t, last, k);
                }
                assert forall|k: nat| walk(target_step(u@), i as int, k) >= 0 by {
                    lemma_endless_follows_targets(u@, pre, i as int, k);
                }
                assert forall|x: int| 0 <= x < i implies walk(
                    parent_step(pre.update(i as int, None)),
                    x,
                    n as nat,
                ) < 0 by {
                    lemma_cut_keeps_finite(pre, i as int, x, n as nat);
                }
                let p2 = pre.update(i as int, None);
                reveal_with_fuel(walk, 2);
                assert(walk(parent_step(p2), i as int, 1) < 0);
                lemma_walk_monotone(parent_step(p2), i as int, 1, n as nat);
                assert(walk(pstep, i as int, 1) >= 0);
                assert(reply_target(u@, i as int) >= 0);
                assert(endless(pstep, i as int));
            }
            par.set(i, None);
        } else {
            proof {
                assert(walk(pstep, i as int, steps + 1) < 0);
                lemma_walk_monotone(pstep, i as int, steps + 1, n as nat);
                assert(!endless(pstep, i as int));
            }
        }
        i = i + 1;
    }
}

proof fn lemma_count_all_false(s: Seq<bool>)
    requires
        forall|q: int| 0 <= q < s.len() ==> !s[q],
    ensures
        count_true(s) == 0,
    decreases s.len(),
{
    if s.len() > 0 {
        lemma_count_all_false(s.drop_last());
    }
}


/// The thread rooted at `u[i]`.
fn thread_for(u: &Vec<ChatMessage>, par: &Vec<Option<usize>>, i: usize, d: usize) -> (t: ThreadNode)
    requires
        par@.len() == u@.len(),
        links_in_range(par@),
        i < u@.len(),
        forall|x: int| 0 <= x < par@.len() ==> walk(parent_step(par@), x, u@.len()) < 0,
        walk(parent_step(par@), i as int, d as nat) >= 0,
    ensures
        is_thread_of(t, u@, par@, i as int),
    decreases u@.len() - d,
{
    let n = u.len();
    proof {
        if d >= n {
            lemma_walk_monotone(parent_step(par@), i as int, n as nat, d as nat);
        }
    }
    let mut replies: Vec<ThreadNode> = Vec::new();
    let mut c: usize = 0;
    while c < n
        invariant
            n == u@.len(),
            par@.len() == n,
            links_in_range(par@),
            i < n,
            d < n,
            c <= n,
            forall|x: int| 0 <= x < par@.len() ==> walk(parent_step(par@), x, u@.len()) < 0,
            walk(parent_step(par@), i as int, d as nat) >= 0,
            replies@.len() == children_upto(par@, i as int, c as int).len(),
            forall|j: int|
                0 <= j < replies@.len() ==> is_thread_of(
                    #[trigger] replies@[j],
                    u@,
                    par@,
                    children_upto(par@, i as int, c as int)[j],
                ),
        decreases n - c,
    {
        let ghost before = replies@;
        match par[c] {
            Some(p) => {
                if p == i {
                    proof {
                        assert(parent_step(par@)(c as int) == i);
                        assert(walk(parent_step(par@), c as int, (d + 1) as nat) == walk(
                            parent_step(par@),
                            i as int,
                            d as nat,
                        ));
                    }
                    let t = thread_for(u, par, c, d + 1);
                    replies.push(t);
                    proof {
                        assert forall|j: int| 0 <= j < replies@.len() implies is_thread_of(
                            #[trigger] replies@[j],
                            u@,
                            par@,
                            children_upto(par@, i as int, (c + 1) as int)[j],
                        ) by {
                            if j < before.len() {
                                assert(replies@[j] == before[j]);
                            }
                        }
                    }
                }
            },
            None => {},
        }
        c = c + 1;
    }
    ThreadNode { message: u[i].duplicate(), replies }
}

/// Build ordered thread trees from a flat message list.
///
/// When several messages share an id the last one wins. Replies nest under
/// their parent; messages without a parent in the list, self-replies, and
/// messages whose reply chain loops become roots (a loop is cut, so the
/// builder never loops). Roots and replies come oldest-first.
///
/// Messages are visited oldest-first; a visited message whose chain of kept
/// links never reaches a root has its own link cut (`cut_links`): each loop
/// loses the link of its oldest member, after any older message whose chain
/// ran into the loop has lost its own.
pub fn build_threads(msgs: Vec<ChatMessage>) -> (r: Vec<ThreadNode>)
    ensures
        threads_of(msgs@, r@),
{
    let mut u = latest_per_id_exec(msgs);
    order_messages(&mut u);
    let n = u.len();
    let mut par: Vec<Option<usize>> = Vec::new();
    let mut i: usize = 0;
    while i < n
        invariant
            n == u@.len(),
            i <= n,
            par@.len() == i,
            forall|x: int| 0 <= x < i && par@[x] is Some ==> par@[x]->0 < n,
            forall|x: int| 0 <= x < i && par@[x] is Some ==> par@[x]->0 == reply_target(u@, x),
            forall|x: int| 0 <= x < i && par@[x] is None ==> reply_target(u@, x) < 0,
        decreases n - i,
    {
        par.push(target_of(&u, i));
        i = i + 1;
    }
    proof {
        assert(par@ =~= reply_links(u@));
    }
    cut_cycles(&u, &mut par);
    let mut out: Vec<ThreadNode> = Vec::new();
    let mut k: usize = 0;
    while k < n
        invariant
            n == u@.len(),
            par@.len() == n,
            k <= n,
            links_ok(u@, par@),
            links_in_range(par@),
            out@.len() == roots_upto(par@, k as int).len(),
            forall|j: int|
                0 <= j < out@.len() ==> is_thread_of(
                    #[trigger] out@[j],
                    u@,
                    par@,
                    roots_upto(par@, k as int)[j],
                ),
        decreases n - k,
    {
        let ghost before = out@;
        if par[k].is_none() {
            let t = thread_for(&u, &par, k, 0);
            out.push(t);
            proof {
                assert forall|j: int| 0 <= j < out@.len() implies is_thread_of(
                    #[trigger] out@[j],
                    u@,
                    par@,
                    roots_upto(par@, (k + 1) as int)[j],
                ) by {
                    if j < before.len() {
                        assert(out@[j] == before[j]);
                    }
                }
            }
        }
        k = k + 1;
    }
    proof {
        assert(is_forest_of(out@, u@, par@));
    }
    out
}

/// Two threads alike: the same message views in the same shape.
pub open spec fn same_thread(t1: ThreadNode, t2: ThreadNode) -> bool
    decreases t1,
{
    &&& t1.message@ == t2.message@
    &&& t1.replies@.len() == t2.replies@.len()
    &&& forall|j: int|
        0 <= j < t1.replies@.len() ==> same_thread(#[trigger] t1.replies@[j], t2.replies@[j])
}

/// Two forests alike, tree by tree.
pub open spec fn same_forest(r1: Seq<ThreadNode>, r2: Seq<ThreadNode>) -> bool {
    &&& r1.len() == r2.len()
    &&& forall|j: int| 0 <= j < r1.len() ==> same_thread(#[trigger] r1[j], r2[j])
}

/// What `build_threads` returns for `msgs`, as its contract states it.
pub open spec fn threads_of(msgs: Seq<ChatMessage>, r: Seq<ThreadNode>) -> bool {
    exists|u: Seq<ChatMessage>|
        is_stable_order_of(u, latest_per_id(msgs)) && #[trigger] is_forest_of(
            r,
            u,
            cut_links(reply_links(u), u.len() as int),
        )
}

/// A thread is fixed by its messages and links.
proof fn lemma_thread_unique(
    t1: ThreadNode,
    t2: ThreadNode,
    u: Seq<ChatMessage>,
    par: Seq<Option<usize>>,
    i: int,
)
    requires
        is_thread_of(t1, u, par, i),
        is_thread_of(t2, u, par, i),
    ensures
        same_thread(t1, t2),
    decreases t1,
{
    let kids = children_upto(par, i, par.len() as int);
    assert forall|j: int| 0 <= j < t1.replies@.len() implies same_thread(
        #[trigger] t1.replies@[j],
        t2.replies@[j],
    ) by {
        lemma_thread_unique(t1.replies@[j], t2.replies@[j], u, par, kids[j]);
    }
}

/// A forest is fixed by its messages and links.
proof fn lemma_forest_unique(r1: Seq<ThreadNode>, r2: Seq<ThreadNode>, u: Seq<ChatMessage>, par: Seq<Option<usize>>)
    requires
        is_forest_of(r1, u, par),
        is_forest_of(r2, u, par),
    ensures
        same_forest(r1, r2),
{
    let roots = roots_upto(par, par.len() as int);
    assert forall|j: int| 0 <= j < r1.len() implies same_thread(#[trigger] r1[j], r2[j]) by {
        lemma_thread_unique(r1[j], r2[j], u, par, roots[j]);
    }
}

/// Law: building threads is deterministic: two results for the same input
/// are alike.
pub proof fn lemma_threads_deterministic(msgs: Seq<ChatMessage>, r1: Seq<ThreadNode>, r2: Seq<ThreadNode>)
    requires
        threads_of(msgs, r1),
        threads_of(msgs, r2),
    ensures
        same_forest(r1, r2),
{
    let u1 = choose|u: Seq<ChatMessage>|
        is_stable_order_of(u, latest_per_id(msgs)) && #[trigger] is_forest_of(
            r1,
            u,
            cut_links(reply_links(u), u.len() as int),
        );
    let u2 = choose|u: Seq<ChatMessage>|
        is_stable_order_of(u, latest_per_id(msgs)) && #[trigger] is_forest_of(
            r2,
            u,
            cut_links(reply_links(u), u.len() as int),
        );
    super::order::lemma_order_deterministic(latest_per_id(msgs), u1, u2);
    lemma_forest_unique(r1, r2, u1, cut_links(reply_links(u1), u1.len() as int));
}

/// With distinct ids, the key group of `x` is the one message sharing its key.
proof fn lemma_key_class_single(s: Seq<ChatMessage>, x: ChatMessage, k: int)
    requires
        unique_ids(s),
        0 <= k < s.len(),
        same_key(s[k], x),
    ensures
        key_class(s, x) == seq![s[k]],
    decreases s.len(),
{
    let d = s.drop_last();
    assert(s =~= d.push(s.last()));
    d.lemma_filter_push(s.last(), key_pred(x));
    assert(unique_ids(d)) by {
        assert forall|i: int, j: int| 0 <= i < j < d.len() implies (#[trigger] d[i]).id@
            != (#[trigger] d[j]).id@ by {
            assert(d[i] == s[i] && d[j] == s[j]);
        }
    }
    if k == s.len() - 1 {
        assert forall|i: int| 0 <= i < d.len() implies !key_pred(x)(#[trigger] d[i]) by {
            if same_key(d[i], x) {
                super::order::lemma_before_facts(d[i], x, s[k]);
                lemma_same_key_same_id(d[i], s[k]);
                assert(d[i] == s[i]);
            }
        }
        lemma_filter_none(d, key_pred(x));
        assert(key_class(s, x) =~= seq![s[k]]);
    } else {
        if same_key(s.last(), x) {
            super::order::lemma_before_facts(s.last(), x, s[k]);
            lemma_same_key_same_id(s.last(), s[k]);
            assert(false);
        }
        assert(d[k] == s[k]);
        lemma_key_class_single(d, x, k);
    }
}

/// With distinct ids, two sequences holding the same messages have the same
/// key groups.
proof fn lemma_key_classes_agree(s1: Seq<ChatMessage>, s2: Seq<ChatMessage>, x: ChatMessage)
    requires
        unique_ids(s1),
        unique_ids(s2),
        forall|m: ChatMessage| s1.contains(m) <==> s2.contains(m),
    ensures
        key_class(s1, x) == key_class(s2, x),
{
    if exists|k: int| 0 <= k < s1.len() && same_key(#[trigger] s1[k], x) {
        let k = choose|k: int| 0 <= k < s1.len() && same_key(#[trigger] s1[k], x);
        assert(s1.contains(s1[k]));
        let k2 = choose|k2: int| 0 <= k2 < s2.len() && s2[k2] == s1[k];
        lemma_key_class_single(s1, x, k);
        lemma_key_class_single(s2, x, k2);
    } else {
        assert forall|i: int| 0 <= i < s2.len() implies !key_pred(x)(#[trigger] s2[i]) by {
            assert(s2.contains(s2[i]));
            let k = choose|k: int| 0 <= k < s1.len() && s1[k] == s2[i];
            assert(!same_key(s1[k], x));
        }
        assert forall|i: int| 0 <= i < s1.len() implies !key_pred(x)(#[trigger] s1[i]) by {}
        lemma_filter_none(s1, key_pred(x));
        lemma_filter_none(s2, key_pred(x));
    }
}

/// With distinct ids no copy is dropped: the latest copy of each id is the
/// only one.
proof fn lemma_latest_of_unique(s: Seq<ChatMessage>)
    requires
        unique_ids(s),
    ensures
        latest_per_id(s) == s,
    decreases s.len(),
{
    if s.len() > 0 {
        let d = s.drop_last();
        assert(unique_ids(d)) by {
            assert forall|i: int, j: int| 0 <= i < j < d.len() implies (#[trigger] d[i]).id@
                != (#[trigger] d[j]).id@ by {
                assert(d[i] == s[i] && d[j] == s[j]);
            }
        }
        lemma_latest_of_unique(d);
        lemma_first_with_id(d, s.last().id@);
        if first_with_id(d, s.last().id@) >= 0 {
            let j = first_with_id(d, s.last().id@);
            assert(d[j] == s[j]);
        }
        assert(d.push(s.last()) =~= s);
    }
}

/// Law: with distinct ids, the order of the input does not matter: any
/// rearrangement of the messages gives alike threads.
pub proof fn lemma_threads_ignore_input_order(
    m1: Seq<ChatMessage>,
    m2: Seq<ChatMessage>,
    r1: Seq<ThreadNode>,
    r2: Seq<ThreadNode>,
)
    requires
        unique_ids(m1),
        unique_ids(m2),
        m1.to_multiset() == m2.to_multiset(),
        threads_of(m1, r1),
        threads_of(m2, r2),
    ensures
        same_forest(r1, r2),
{
    broadcast use vstd::seq_lib::group_to_multiset_ensures;

    let u1 = choose|u: Seq<ChatMessage>|
        is_stable_order_of(u, latest_per_id(m1)) && #[trigger] is_forest_of(
            r1,
            u,
            cut_links(reply_links(u), u.len() as int),
        );
    let u2 = choose|u: Seq<ChatMessage>|
        is_stable_order_of(u, latest_per_id(m2)) && #[trigger] is_forest_of(
            r2,
            u,
            cut_links(reply_links(u), u.len() as int),
        );
    lemma_latest_of_unique(m1);
    lemma_latest_of_unique(m2);
    assert forall|m: ChatMessage| m1.contains(m) <==> m2.contains(m) by {
        assert(m1.contains(m) <==> m1.to_multiset().count(m) > 0);
        assert(m2.contains(m) <==> m2.to_multiset().count(m) > 0);
    }
    assert forall|x: ChatMessage| #[trigger] key_class(u1, x) == key_class(u2, x) by {
        lemma_key_classes_agree(m1, m2, x);
        assert(key_class(u1, x) == key_class(m1, x));
        assert(key_class(u2, x) == key_class(m2, x));
    }
    lemma_stable_order_unique(u1, u2);
    lemma_forest_unique(r1, r2, u1, cut_links(reply_links(u1), u1.len() as int));
}

} // verus!
