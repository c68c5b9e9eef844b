//! Secret-safe log lines: bearer tokens and `Authorization` header values
//! never reach the log.
use vstd::prelude::*;
use crate::text::{chars_of, find_chars, find_from, lemma_find_from, occurs_at, string_from_chars};

verus! {

/// The marker that precedes a token in an `Authorization` header value.
pub open spec fn bearer_upper() -> Seq<char> {
    seq!['B', 'e', 'a', 'r', 'e', 'r', ' ']
}

/// The lower-case spelling of the same marker.
pub open spec fn bearer_lower() -> Seq<char> {
    seq!['b', 'e', 'a', 'r', 'e', 'r', ' ']
}

/// What a token is replaced with.
pub open spec fn redacted_mark() -> Seq<char> {
    seq!['[', 'R', 'E', 'D', 'A', 'C', 'T', 'E', 'D', ']']
}

/// The header whose whole value is a secret.
pub open spec fn header_marker() -> Seq<char> {
    seq!['A', 'u', 't', 'h', 'o', 'r', 'i', 'z', 'a', 't', 'i', 'o', 'n', ':']
}

/// A token ends at a space, a newline or a double quote.
pub open spec fn ends_token(c: char) -> bool {
    c == ' ' || c == '\n' || c == '"'
}

/// A header value ends at a line break or a double quote.
pub open spec fn ends_value(c: char) -> bool {
    c == '\n' || c == '\r' || c == '"'
}

/// Where the secret after a marker stops: a header value (`whole`) runs to
/// the end of its line, a token to the next space as well.
pub open spec fn ends_secret(c: char, whole: bool) -> bool {
    if whole {
        ends_value(c)
    } else {
        ends_token(c)
    }
}

/// The end of the secret that starts at `k`: the first end at or after `k`,
/// or the end of the text.
pub open spec fn token_end(s: Seq<char>, k: int, whole: bool) -> int
    decreases s.len() - k,
{
    if k < 0 || k >= s.len() {
        s.len() as int
    } else if ends_secret(s[k], whole) {
        k
    } else {
        token_end(s, k + 1, whole)
    }
}

/// The text from `p` on with every `marker` followed by `[REDACTED]` in place
/// of its secret; the search goes on after each replacement.
pub open spec fn redact_from(s: Seq<char>, marker: Seq<char>, p: int, whole: bool) -> Seq<char>
    decreases s.len() - p,
{
    if p < 0 || p > s.len() {
        Seq::empty()
    } else {
        let i = find_from(s, marker, p);
        if i < p {
            s.subrange(p, s.len() as int)
        } else {
            let e = token_end(s, i + marker.len(), whole);
            if p < e <= s.len() {
                s.subrange(p, i) + marker + redacted_mark() + redact_from(s, marker, e, whole)
            } else {
                s.subrange(p, s.len() as int)
            }
        }
    }
}

/// A log line with its `Bearer ` tokens redacted, then its `bearer `
/// tokens.
pub open spec fn bearer_redacted(s: Seq<char>) -> Seq<char> {
    redact_from(redact_from(s, bearer_upper(), 0, false), bearer_lower(), 0, false)
}

/// A log line with its bearer tokens redacted, then the whole value of each
/// `Authorization:` header, whatever its scheme.
pub open spec fn redacted(s: Seq<char>) -> Seq<char> {
    redact_from(bearer_redacted(s), header_marker(), 0, true)
}

proof fn lemma_token_end(s: Seq<char>, k: int, whole: bool)
    requires
        0 <= k <= s.len(),
    ensures
        k <= token_end(s, k, whole) <= s.len(),
        forall|j: int| k <= j < token_end(s, k, whole) ==> !ends_secret(#[trigger] s[j], whole),
        token_end(s, k, whole) < s.len() ==> ends_secret(s[token_end(s, k, whole)], whole),
    decreases s.len() - k,
{
    if k < s.len() && !ends_secret(s[k], whole) {
        lemma_token_end(s, k + 1, whole);
    }
}

/// End of the secret that starts at `k`.
fn find_token_end(cs: &Vec<char>, k: usize, whole: bool) -> (r: usize)
    requires
        k <= cs@.len(),
    ensures
        r as int == token_end(cs@, k as int, whole),
{
    let mut j = k;
    while j < cs.len()
        invariant
            k <= j <= cs@.len(),
            token_end(cs@, k as int, whole) == token_end(cs@, j as int, whole),
        decreases cs@.len() - j,
    {
        let c = cs[j];
        let stop = if whole {
            c == '\n' || c == '\r' || c == '"'
        } else {
            c == ' ' || c == '\n' || c == '"'
        };
        if stop {
            return j;
        }
        j = j + 1;
    }
    j
}

/// One redaction pass over `cs` for `marker`.
fn redact_pass(cs: &Vec<char>, marker: &Vec<char>, whole: bool) -> (r: Vec<char>)
    requires
        marker@.len() > 0,
    ensures
        r@ == redact_from(cs@, marker@, 0, whole),
{
    let n = cs.len();
    let mark = chars_of("[REDACTED]");
    proof {
        reveal_strlit("[REDACTED]");
        assert(mark@ =~= redacted_mark());
    }
    let mut out: Vec<char> = Vec::new();
    let mut p: usize = 0;
    loop
        invariant
            p <= n,
            n == cs@.len(),
            marker@.len() > 0,
            mark@ == redacted_mark(),
            out@ + redact_from(cs@, marker@, p as int, whole) == redact_from(cs@, marker@, 0, whole),
        decreases n - p,
    {
        let ghost before = out@;
        proof {
            lemma_find_from(cs@, marker@, p as int);
        }
        match find_chars(cs, marker, p) {
            None => {
                append_all(&mut out, cs, p, n);
                proof {
                    assert(out@ =~= redact_from(cs@, marker@, 0, whole));
                }
                return out;
            },
            Some(i) => {
                let ts = i + marker.len();
                let e = find_token_end(cs, ts, whole);
                proof {
                    lemma_token_end(cs@, ts as int, whole);
                }
                append_all(&mut out, cs, p, i);
                append_all(&mut out, marker, 0, marker.len());
                append_all(&mut out, &mark, 0, mark.len());
                proof {
                    assert(marker@.subrange(0, marker@.len() as int) =~= marker@);
                    assert(mark@.subrange(0, mark@.len() as int) =~= mark@);
                    assert(out@ + redact_from(cs@, marker@, e as int, whole) =~= before + redact_from(
                        cs@,
                        marker@,
                        p as int,
                        whole,
                    ));
                }
                p = e;
            },
        }
    }
}

/// `src[from..to]` appended to `dst`.
fn append_all(dst: &mut Vec<char>, src: &Vec<char>, from: usize, to: usize)
    requires
        from <= to <= src@.len(),
    ensures
        final(dst)@ == old(dst)@ + src@.subrange(from as int, to as int),
{
    let mut i = from;
    while i < to
        invariant
            from <= i <= to,
            to <= src@.len(),
            dst@ == old(dst)@ + src@.subrange(from as int, i as int),
        decreases to - i,
    {
        dst.push(src[i]);
        i = i + 1;
        proof {
            assert(src@.subrange(from as int, i as int) =~= src@.subrange(from as int, i - 1).push(
                src@[i - 1],
            ));
        }
    }
}

/// Redacts secrets from a log line: each token after `Bearer ` (then after
/// `bearer `), up to a space, newline or double quote, becomes `[REDACTED]`;
/// then the whole value of each `Authorization:` header, whatever its
/// scheme, up to a line break or double quote, becomes `[REDACTED]`.
pub fn redact(line: &str) -> (r: String)
    ensures
        r@ == redacted(line@),
{
    let cs = chars_of(line);
    let upper = chars_of("Bearer ");
    let lower = chars_of("bearer ");
    let header = chars_of("Authorization:");
    proof {
        reveal_strlit("Bearer ");
        reveal_strlit("bearer ");
        reveal_strlit("Authorization:");
        assert(upper@ =~= bearer_upper());
        assert(lower@ =~= bearer_lower());
        assert(header@ =~= header_marker());
    }
    let once = redact_pass(&cs, &upper, false);
    let twice = redact_pass(&once, &lower, false);
    let thrice = redact_pass(&twice, &header, true);
    string_from_chars(&thrice)
}

/// A marker of the two spellings: its first letter occurs nowhere else in it
/// nor in `[REDACTED]`.
pub open spec fn is_marker(m: Seq<char>) -> bool {
    m == bearer_upper() || m == bearer_lower()
}

proof fn lemma_marker_facts(m: Seq<char>)
    requires
        is_marker(m),
    ensures
        m.len() == 7,
        forall|d: int| 1 <= d < 7 ==> #[trigger] m[d] != m[0],
        forall|d: int| 0 <= d < 10 ==> #[trigger] redacted_mark()[d] != m[0],
{
    assert(redacted_mark().len() == 10);
}

/// Every occurrence of the marker in a pass's result is followed by
/// `[REDACTED]`.
proof fn lemma_pass_marks_from(s: Seq<char>, m: Seq<char>, p: int)
    requires
        is_marker(m),
        0 <= p <= s.len(),
    ensures
        forall|j: int|
            #[trigger] occurs_at(redact_from(s, m, p, false), m, j) ==> occurs_at(
                redact_from(s, m, p, false),
                redacted_mark(),
                j + 7,
            ),
    decreases s.len() - p,
{
    lemma_marker_facts(m);
    lemma_find_from(s, m, p);
    let r = redact_from(s, m, p, false);
    let i = find_from(s, m, p);
    if i < p {
        assert forall|j: int| occurs_at(r, m, j) implies occurs_at(r, redacted_mark(), j + 7) by {
            assert(r =~= s.subrange(p, s.len() as int));
            assert(s.subrange(p + j, p + j + 7) =~= r.subrange(j, j + 7));
            assert(occurs_at(s, m, p + j));
        }
    } else {
        let e = token_end(s, i + 7, false);
        lemma_token_end(s, i + 7, false);
        let a = s.subrange(p, i);
        let rest = redact_from(s, m, e, false);
        let al = i - p;
        assert(r == a + m + redacted_mark() + rest);
        lemma_pass_marks_from(s, m, e);
        assert forall|j: int| occurs_at(r, m, j) implies occurs_at(r, redacted_mark(), j + 7) by {
            assert(r.subrange(j, j + 7)[0] == r[j]);
            assert(r[j] == m[0]);
            if j + 7 <= al {
                assert(s.subrange(p + j, p + j + 7) =~= r.subrange(j, j + 7));
                assert(occurs_at(s, m, p + j));
            } else if j < al {
                let d = al - j;
                assert(r.subrange(j, j + 7)[d] == r[al]);
                assert(r[al] == m[0]);
                assert(m[d] != m[0]);
            } else if j == al {
                assert(r.subrange(al + 7, al + 17) =~= redacted_mark());
            } else if j < al + 7 {
                assert(r[j] == m[j - al]);
            } else if j < al + 17 {
                assert(r[j] == redacted_mark()[j - al - 7]);
            } else {
                let k = j - (al + 17);
                assert(rest.subrange(k, k + 7) =~= r.subrange(j, j + 7));
                assert(occurs_at(rest, m, k));
                assert(occurs_at(rest, redacted_mark(), k + 7));
                assert(rest.subrange(k + 7, k + 17) =~= r.subrange(j + 7, j + 17));
            }
        }
    }
}

/// Law: after a redaction pass, every occurrence of its marker is followed
/// by `[REDACTED]`: no token that the marker introduces survives.
pub proof fn lemma_pass_leaves_no_token(s: Seq<char>, m: Seq<char>)
    requires
        is_marker(m),
    ensures
        forall|j: int|
            #[trigger] occurs_at(redact_from(s, m, 0, false), m, j) ==> occurs_at(
                redact_from(s, m, 0, false),
                redacted_mark(),
                j + 7,
            ),
{
    lemma_pass_marks_from(s, m, 0);
}

/// Every `Bearer ` of `t` is followed by `[REDACTED]`.
pub open spec fn upper_marks_redacted(t: Seq<char>) -> bool {
    forall|j: int| #[trigger] occurs_at(t, bearer_upper(), j) ==> occurs_at(t, redacted_mark(), j + 7)
}

/// The `bearer ` pass keeps every `Bearer ` followed by `[REDACTED]`.
proof fn lemma_lower_pass_keeps_upper(t: Seq<char>, p: int)
    requires
        upper_marks_redacted(t),
        0 <= p <= t.len(),
    ensures
        upper_marks_redacted(redact_from(t, bearer_lower(), p, false)),
    decreases t.len() - p,
{
    let m = bearer_lower();
    let u = bearer_upper();
    let rm = redacted_mark();
    assert(rm.len() == 10);
    lemma_find_from(t, m, p);
    let r = redact_from(t, m, p, false);
    let i = find_from(t, m, p);
    if i < p {
        assert forall|j: int| occurs_at(r, u, j) implies occurs_at(r, rm, j + 7) by {
            assert(r =~= t.subrange(p, t.len() as int));
            assert(t.subrange(p + j, p + j + 7) =~= r.subrange(j, j + 7));
            assert(occurs_at(t, u, p + j));
            assert(occurs_at(t, rm, p + j + 7));
            assert(t.subrange(p + j + 7, p + j + 17) =~= r.subrange(j + 7, j + 17));
        }
    } else {
        let e = token_end(t, i + 7, false);
        lemma_token_end(t, i + 7, false);
        let a = t.subrange(p, i);
        let rest = redact_from(t, m, e, false);
        let al = i - p;
        assert(r == a + m + rm + rest);
        lemma_lower_pass_keeps_upper(t, e);
        assert(t.subrange(i, i + 7)[0] == t[i]);
        assert(t[i] == 'b');
        assert forall|j: int| occurs_at(r, u, j) implies occurs_at(r, rm, j + 7) by {
            assert(r.subrange(j, j + 7)[0] == r[j]);
            assert(r[j] == 'B');
            if j + 7 <= al {
                assert(t.subrange(p + j, p + j + 7) =~= r.subrange(j, j + 7));
                assert(occurs_at(t, u, p + j));
                assert(occurs_at(t, rm, p + j + 7));
                let q = p + j + 7;
                if i < q + 10 {
                    assert(t.subrange(q, q + 10)[i - q] == t[i]);
                    assert(false);
                }
                assert(t.subrange(q, q + 10) =~= r.subrange(j + 7, j + 17));
            } else if j < al {
                let d = al - j;
                assert(r.subrange(j, j + 7)[d] == r[al]);
                assert(r[al] == 'b');
            } else if j < al + 7 {
                assert(r[j] == m[j - al]);
            } else if j < al + 17 {
                assert(r[j] == rm[j - al - 7]);
            } else {
                let k = j - (al + 17);
                assert(rest.subrange(k, k + 7) =~= r.subrange(j, j + 7));
                assert(occurs_at(rest, u, k));
                assert(occurs_at(rest, rm, k + 7));
                assert(rest.subrange(k + 7, k + 17) =~= r.subrange(j + 7, j + 17));
            }
        }
    }
}

/// Character facts behind the `Authorization:` proofs: the header's first
/// letter recurs in `[REDACTED]` only where the next letter differs from
/// the header's second, and neither holds a bearer marker's first letter.
proof fn lemma_header_facts()
    ensures
        header_marker().len() == 14,
        header_marker()[0] == 'A',
        header_marker()[1] == 'u',
        forall|d: int| 1 <= d < 14 ==> #[trigger] header_marker()[d] != 'A',
        forall|d: int|
            0 <= d < 14 ==> #[trigger] header_marker()[d] != 'B' && header_marker()[d] != 'b',
        redacted_mark().len() == 10,
        redacted_mark()[4] == 'A',
        redacted_mark()[5] == 'C',
        forall|d: int| 0 <= d < 10 && d != 4 ==> #[trigger] redacted_mark()[d] != 'A',
        forall|d: int|
            0 <= d < 10 ==> #[trigger] redacted_mark()[d] != 'B' && redacted_mark()[d] != 'b',
        forall|d: int| 0 <= d < 7 ==> #[trigger] bearer_upper()[d] != 'A' && bearer_lower()[d] != 'A',
{
}

/// Every `Authorization:` in a header pass's result is followed by
/// `[REDACTED]`.
proof fn lemma_header_marks_from(s: Seq<char>, p: int)
    requires
        0 <= p <= s.len(),
    ensures
        forall|j: int|
            #[trigger] occurs_at(redact_from(s, header_marker(), p, true), header_marker(), j)
                ==> occurs_at(redact_from(s, header_marker(), p, true), redacted_mark(), j + 14),
    decreases s.len() - p,
{
    let m = header_marker();
    let rm = redacted_mark();
    lemma_header_facts();
    lemma_find_from(s, m, p);
    let r = redact_from(s, m, p, true);
    let i = find_from(s, m, p);
    if i < p {
        assert forall|j: int| occurs_at(r, m, j) implies occurs_at(r, rm, j + 14) by {
            assert(r =~= s.subrange(p, s.len() as int));
            assert(s.subrange(p + j, p + j + 14) =~= r.subrange(j, j + 14));
            assert(occurs_at(s, m, p + j));
        }
    } else {
        let e = token_end(s, i + 14, true);
        lemma_token_end(s, i + 14, true);
        let a = s.subrange(p, i);
        let rest = redact_from(s, m, e, true);
        let al = i - p;
        assert(r == a + m + rm + rest);
        lemma_header_marks_from(s, e);
        assert forall|j: int| occurs_at(r, m, j) implies occurs_at(r, rm, j + 14) by {
            assert(r.subrange(j, j + 14)[0] == r[j]);
            assert(r[j] == m[0]);
            if j + 14 <= al {
                assert(s.subrange(p + j, p + j + 14) =~= r.subrange(j, j + 14));
                assert(occurs_at(s, m, p + j));
            } else if j < al {
                let d = al - j;
                assert(r.subrange(j, j + 14)[d] == r[al]);
                assert(r[al] == m[0]);
            } else if j == al {
                assert(r.subrange(al + 14, al + 24) =~= rm);
            } else if j < al + 14 {
                assert(r[j] == m[j - al]);
            } else if j < al + 24 {
                assert(r[j] == rm[j - al - 14]);
                assert(j - al - 14 == 4);
                assert(r.subrange(j, j + 14)[1] == r[j + 1]);
                assert(r[j + 1] == rm[5]);
            } else {
                let k = j - (al + 24);
                assert(rest.subrange(k, k + 14) =~= r.subrange(j, j + 14));
                assert(occurs_at(rest, m, k));
                assert(occurs_at(rest, rm, k + 14));
                assert(rest.subrange(k + 14, k + 24) =~= r.subrange(j + 14, j + 24));
            }
        }
    }
}

/// Every occurrence of `m` in `t` is followed by `[REDACTED]`.
pub open spec fn marks_redacted(t: Seq<char>, m: Seq<char>) -> bool {
    forall|j: int| #[trigger] occurs_at(t, m, j) ==> occurs_at(t, redacted_mark(), j + m.len())
}

/// The header pass keeps every bearer marker followed by `[REDACTED]`.
proof fn lemma_header_pass_keeps(t: Seq<char>, m: Seq<char>, p: int)
    requires
        is_marker(m),
        marks_redacted(t, m),
        0 <= p <= t.len(),
    ensures
        marks_redacted(redact_from(t, header_marker(), p, true), m),
    decreases t.len() - p,
{
    let h = header_marker();
    let rm = redacted_mark();
    lemma_header_facts();
    lemma_marker_facts(m);
    lemma_find_from(t, h, p);
    let r = redact_from(t, h, p, true);
    let i = find_from(t, h, p);
    if i < p {
        assert forall|j: int| occurs_at(r, m, j) implies occurs_at(r, rm, j + 7) by {
            assert(r =~= t.subrange(p, t.len() as int));
            assert(t.subrange(p + j, p + j + 7) =~= r.subrange(j, j + 7));
            assert(occurs_at(t, m, p + j));
            assert(occurs_at(t, rm, p + j + 7));
            assert(t.subrange(p + j + 7, p + j + 17) =~= r.subrange(j + 7, j + 17));
        }
    } else {
        let e = token_end(t, i + 14, true);
        lemma_token_end(t, i + 14, true);
        let a = t.subrange(p, i);
        let rest = redact_from(t, h, e, true);
        let al = i - p;
        assert(r == a + h + rm + rest);
        lemma_header_pass_keeps(t, m, e);
        assert(t.subrange(i, i + 14)[0] == t[i]);
        assert(t[i] == 'A');
        assert(t.subrange(i, i + 14)[1] == t[i + 1]);
        assert(t[i + 1] == 'u');
        assert forall|j: int| occurs_at(r, m, j) implies occurs_at(r, rm, j + 7) by {
            assert(r.subrange(j, j + 7)[0] == r[j]);
            assert(r[j] == m[0]);
            if j + 7 <= al {
                assert(t.subrange(p + j, p + j + 7) =~= r.subrange(j, j + 7));
                assert(occurs_at(t, m, p + j));
                assert(occurs_at(t, rm, p + j + 7));
                let q = p + j + 7;
                if i < q + 10 {
                    assert(t.subrange(q, q + 10)[i - q] == t[i]);
                    assert(i - q == 4);
                    assert(t.subrange(q, q + 10)[5] == t[q + 5]);
                    assert(false);
                }
                assert(t.subrange(q, q + 10) =~= r.subrange(j + 7, j + 17));
            } else if j < al {
                let d = al - j;
                assert(r.subrange(j, j + 7)[d] == r[al]);
                assert(r[al] == 'A');
            } else if j < al + 14 {
                assert(r[j] == h[j - al]);
            } else if j < al + 24 {
                assert(r[j] == rm[j - al - 14]);
            } else {
                let k = j - (al + 24);
                assert(rest.subrange(k, k + 7) =~= r.subrange(j, j + 7));
                assert(occurs_at(rest, m, k));
                assert(occurs_at(rest, rm, k + 7));
                assert(rest.subrange(k + 7, k + 17) =~= r.subrange(j + 7, j + 17));
            }
        }
    }
}

/// Law: in a redacted line every `Bearer `, every `bearer ` and every
/// `Authorization:` is followed by `[REDACTED]`: no bearer token and no
/// `Authorization` header value survives redaction.
pub proof fn lemma_redacted_has_no_secret(s: Seq<char>)
    ensures
        marks_redacted(redacted(s), bearer_upper()),
        marks_redacted(redacted(s), bearer_lower()),
        marks_redacted(redacted(s), header_marker()),
{
    let once = redact_from(s, bearer_upper(), 0, false);
    lemma_pass_leaves_no_token(s, bearer_upper());
    assert(upper_marks_redacted(once));
    lemma_lower_pass_keeps_upper(once, 0);
    lemma_pass_leaves_no_token(once, bearer_lower());
    let b = bearer_redacted(s);
    assert(marks_redacted(b, bearer_upper()));
    assert(marks_redacted(b, bearer_lower()));
    lemma_header_pass_keeps(b, bearer_upper(), 0);
    lemma_header_pass_keeps(b, bearer_lower(), 0);
    lemma_header_marks_from(b, 0);
    lemma_header_facts();
}

} // verus!
