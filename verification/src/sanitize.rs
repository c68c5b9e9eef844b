//! Terminal-output sanitization, the security boundary for remote text.
//!
//! All remote (untrusted) text passes through [`sanitize`] before rendering:
//! - C0 controls except `\n` and `\t` are stripped, and so is DEL;
//! - ANSI CSI (`ESC [` ... final byte `@`..`~`), OSC (`ESC ]` ... `BEL` or
//!   `ESC \`), charset designations (`ESC (`, `)`, `#`, `%` plus one char),
//!   Fe escapes (`ESC` + ASCII letter) and a lone `ESC` are removed; a stray
//!   `ESC` before anything else is dropped and its follower kept;
//! - Unicode non-characters are dropped;
//! - it never panics; the output is safe to hand to the terminal.
use vstd::prelude::*;
use crate::text::{chars_of, push_char};

verus! {

pub open spec fn ESC() -> char {
    '\x1b'
}

/// Unicode non-characters: U+FDD0..U+FDEF and code points ending in FFFE/FFFF.
pub open spec fn is_noncharacter(c: char) -> bool {
    let v = c as u32;
    (0xFDD0 <= v && v <= 0xFDEF) || (v & 0xFFFE) == 0xFFFE
}

/// C0 controls other than `\n` and `\t`, and DEL.
pub open spec fn is_stripped_control(c: char) -> bool {
    let v = c as u32;
    (v <= 0x1F && v != 0x09 && v != 0x0A) || v == 0x7F
}

/// A character that plain text may carry to the terminal.
pub open spec fn is_safe_char(c: char) -> bool {
    !is_stripped_control(c) && !is_noncharacter(c) && c != ESC()
}

/// Position just past a CSI sequence whose parameters start at `k`: past the
/// first final byte `@`..`~`, or the end of the text.
pub open spec fn csi_end(s: Seq<char>, k: int) -> int
    decreases s.len() - k,
{
    if k >= s.len() {
        s.len() as int
    } else if 0x40 <= (s[k] as u32) && (s[k] as u32) <= 0x7E {
        k + 1
    } else {
        csi_end(s, k + 1)
    }
}

/// Position just past an OSC string whose body starts at `k`: past the first
/// `BEL` or `ESC \`, or the end of the text.
pub open spec fn osc_end(s: Seq<char>, k: int) -> int
    decreases s.len() - k,
{
    if k >= s.len() {
        s.len() as int
    } else if s[k] == '\x07' {
        k + 1
    } else if s[k] == ESC() && k + 1 < s.len() && s[k + 1] == '\\' {
        k + 2
    } else {
        osc_end(s, k + 1)
    }
}

/// Position after the escape sequence that starts with the `ESC` at `i`.
pub open spec fn escape_end(s: Seq<char>, i: int) -> int {
    if i + 1 >= s.len() {
        i + 1
    } else {
        let next = s[i + 1];
        if next == '[' {
            csi_end(s, i + 2)
        } else if next == ']' {
            osc_end(s, i + 2)
        } else if next == '(' || next == ')' || next == '#' || next == '%' {
            if i + 3 <= s.len() {
                i + 3
            } else {
                s.len() as int
            }
        } else if ('a' <= next && next <= 'z') || ('A' <= next && next <= 'Z') {
            i + 2
        } else {
            i + 1
        }
    }
}

/// What sanitizing produces from position `i` on.
pub open spec fn sanitized_from(s: Seq<char>, i: int) -> Seq<char>
    decreases s.len() - i, 0int,
{
    if i < 0 || i >= s.len() {
        Seq::empty()
    } else if s[i] == ESC() {
        if i < escape_end(s, i) <= s.len() {
            sanitized_from(s, escape_end(s, i))
        } else {
            Seq::empty()
        }
    } else if is_stripped_control(s[i]) || is_noncharacter(s[i]) {
        sanitized_from(s, i + 1)
    } else {
        seq![s[i]] + sanitized_from(s, i + 1)
    }
}

/// The sanitized form of a text.
pub open spec fn sanitized(s: Seq<char>) -> Seq<char> {
    sanitized_from(s, 0)
}

proof fn lemma_csi_end(s: Seq<char>, k: int)
    requires
        0 <= k,
    ensures
        k < csi_end(s, k) <= s.len() || (k >= s.len() && csi_end(s, k) == s.len()),
    decreases s.len() - k,
{
    if k < s.len() && !(0x40 <= (s[k] as u32) && (s[k] as u32) <= 0x7E) {
        lemma_csi_end(s, k + 1);
    }
}

proof fn lemma_osc_end(s: Seq<char>, k: int)
    requires
        0 <= k,
    ensures
        k < osc_end(s, k) <= s.len() || (k >= s.len() && osc_end(s, k) == s.len()),
    decreases s.len() - k,
{
    if k < s.len() && s[k] != '\x07' && !(s[k] == ESC() && k + 1 < s.len() && s[k + 1] == '\\') {
        lemma_osc_end(s, k + 1);
    }
}

proof fn lemma_escape_end(s: Seq<char>, i: int)
    requires
        0 <= i < s.len(),
    ensures
        i < escape_end(s, i) <= s.len(),
{
    if i + 1 < s.len() {
        lemma_csi_end(s, i + 2);
        lemma_osc_end(s, i + 2);
    }
}

/// Exec: non-character test.
fn noncharacter(c: char) -> (r: bool)
    ensures
        r == is_noncharacter(c),
{
    let v = c as u32;
    (0xFDD0 <= v && v <= 0xFDEF) || (v & 0xFFFE) == 0xFFFE
}

/// Exec: stripped-control test.
fn stripped_control(c: char) -> (r: bool)
    ensures
        r == is_stripped_control(c),
{
    let v = c as u32;
    (v <= 0x1F && v != 0x09 && v != 0x0A) || v == 0x7F
}

/// Exec: end of a CSI sequence.
fn skip_csi(cs: &Vec<char>, k: usize) -> (r: usize)
    requires
        k <= cs@.len(),
    ensures
        r == csi_end(cs@, k as int),
{
    let mut j = k;
    while j < cs.len()
        invariant
            k <= j <= cs@.len(),
            csi_end(cs@, k as int) == csi_end(cs@, j as int),
        decreases cs.len() - j,
    {
        let v = cs[j] as u32;
        if 0x40 <= v && v <= 0x7E {
            return j + 1;
        }
        j = j + 1;
    }
    j
}

/// Exec: end of an OSC string.
fn skip_osc(cs: &Vec<char>, k: usize) -> (r: usize)
    requires
        k <= cs@.len(),
    ensures
        r == osc_end(cs@, k as int),
{
    let mut j = k;
    while j < cs.len()
        invariant
            k <= j <= cs@.len(),
            osc_end(cs@, k as int) == osc_end(cs@, j as int),
        decreases cs.len() - j,
    {
        if cs[j] == '\x07' {
            return j + 1;
        }
        if cs[j] == '\x1b' && j + 1 < cs.len() && cs[j + 1] == '\\' {
            return j + 2;
        }
        j = j + 1;
    }
    j
}

/// Exec: end of the escape sequence starting at `i`.
fn skip_escape(cs: &Vec<char>, i: usize) -> (r: usize)
    requires
        i < cs@.len(),
    ensures
        r == escape_end(cs@, i as int),
{
    if i >= cs.len() - 1 {
        return i + 1;
    }
    let next = cs[i + 1];
    if next == '[' {
        skip_csi(cs, i + 2)
    } else if next == ']' {
        skip_osc(cs, i + 2)
    } else if next == '(' || next == ')' || next == '#' || next == '%' {
        if cs.len() - i >= 3 {
            i + 3
        } else {
            cs.len()
        }
    } else if ('a' <= next && next <= 'z') || ('A' <= next && next <= 'Z') {
        i + 2
    } else {
        i + 1
    }
}

/// Sanitize untrusted remote text for terminal presentation.
pub fn sanitize(input: &str) -> (r: String)
    ensures
        r@ == sanitized(input@),
{
    let cs = chars_of(input);
    let mut out = String::new();
    let mut i: usize = 0;
    while i < cs.len()
        invariant
            cs@ == input@,
            i <= cs@.len(),
            out@ + sanitized_from(cs@, i as int) == sanitized(cs@),
        decreases cs.len() - i,
    {
        let c = cs[i];
        if c == '\x1b' {
            let j = skip_escape(&cs, i);
            proof {
                lemma_escape_end(cs@, i as int);
            }
            i = j;
        } else if stripped_control(c) || noncharacter(c) {
            i = i + 1;
        } else {
            proof {
                assert(out@.push(c) + sanitized_from(cs@, i + 1) =~= out@ + sanitized_from(
                    cs@,
                    i as int,
                ));
            }
            push_char(&mut out, c);
            i = i + 1;
        }
    }
    proof {
        assert(out@ + sanitized_from(cs@, i as int) =~= out@);
    }
    out
}

/// Sanitize, then keep at most `max_chars` characters.
pub fn sanitize_with_limit(input: &str, max_chars: usize) -> (r: String)
    ensures
        r@ == if sanitized(input@).len() <= max_chars {
            sanitized(input@)
        } else {
            sanitized(input@).take(max_chars as int)
        },
{
    let clean = sanitize(input);
    let cs = chars_of(clean.as_str());
    if cs.len() <= max_chars {
        return clean;
    }
    let mut out = String::new();
    let mut i: usize = 0;
    while i < max_chars
        invariant
            cs@ == clean@,
            max_chars < cs@.len(),
            i <= max_chars,
            out@ == cs@.take(i as int),
        decreases max_chars - i,
    {
        push_char(&mut out, cs[i]);
        i = i + 1;
        proof {
            assert(cs@.take(i as int) =~= cs@.take(i - 1).push(cs@[i - 1]));
        }
    }
    out
}

/// Every character sanitizing emits is safe: no ESC, no C0 control other
/// than `\n` and `\t`, no DEL, no non-character.
pub proof fn lemma_sanitized_is_safe(s: Seq<char>, i: int)
    ensures
        forall|k: int| 0 <= k < sanitized_from(s, i).len() ==> is_safe_char(
            #[trigger] sanitized_from(s, i)[k],
        ),
    decreases s.len() - i,
{
    if i < 0 || i >= s.len() {
    } else if s[i] == ESC() {
        lemma_escape_end(s, i);
        lemma_sanitized_is_safe(s, escape_end(s, i));
        assert(sanitized_from(s, i) == sanitized_from(s, escape_end(s, i)));
    } else {
        lemma_sanitized_is_safe(s, i + 1);
        if is_stripped_control(s[i]) || is_noncharacter(s[i]) {
            assert(sanitized_from(s, i) == sanitized_from(s, i + 1));
        }
        if !(is_stripped_control(s[i]) || is_noncharacter(s[i])) {
            let tail = sanitized_from(s, i + 1);
            assert forall|k: int| 0 <= k < sanitized_from(s, i).len() implies is_safe_char(
                #[trigger] sanitized_from(s, i)[k],
            ) by {
                if k > 0 {
                    assert(sanitized_from(s, i)[k] == tail[k - 1]);
                }
            }
        }
    }
}

/// Text made only of safe characters passes through unchanged.
pub proof fn lemma_safe_text_unchanged(s: Seq<char>, i: int)
    requires
        0 <= i <= s.len(),
        forall|k: int| 0 <= k < s.len() ==> is_safe_char(#[trigger] s[k]),
    ensures
        sanitized_from(s, i) == s.skip(i),
    decreases s.len() - i,
{
    if i < s.len() {
        assert(is_safe_char(s[i]));
        lemma_safe_text_unchanged(s, i + 1);
        assert(seq![s[i]] + s.skip(i + 1) =~= s.skip(i));
    } else {
        assert(s.skip(i) =~= Seq::<char>::empty());
    }
}

/// Sanitizing is idempotent.
pub proof fn lemma_sanitize_idempotent(s: Seq<char>)
    ensures
        sanitized(sanitized(s)) == sanitized(s),
{
    lemma_sanitized_is_safe(s, 0);
    lemma_safe_text_unchanged(sanitized(s), 0);
    assert(sanitized(s).skip(0) =~= sanitized(s));
}

/// Which characters survive plain text (text without `ESC`), spelt out by
/// code point: everything but the C0 controls other than `\t` and `\n`,
/// DEL, U+FDD0..U+FDEF, and the code points whose low 16 bits are FFFE or
/// FFFF.
proof fn lemma_kept_by_code_point(c: char)
    ensures
        !(is_stripped_control(c) || is_noncharacter(c)) <==> !(((c as u32) < 0x20 && (c as u32)
            != 0x09 && (c as u32) != 0x0A) || (c as u32) == 0x7F || (0xFDD0 <= (c as u32) && (c as u32)
            <= 0xFDEF) || (c as u32) % 0x10000 >= 0xFFFE),
{
    let v = c as u32;
    assert((v & 0xFFFE) == 0xFFFE <==> v % 0x10000 >= 0xFFFE) by (bit_vector);
}

proof fn lemma_plain_from(s: Seq<char>, i: int)
    requires
        0 <= i <= s.len(),
        forall|k: int| 0 <= k < s.len() ==> #[trigger] s[k] != '\x1b',
    ensures
        sanitized_from(s, i) == s.skip(i).filter(
            |c: char|
                !(((c as u32) < 0x20 && (c as u32) != 0x09 && (c as u32) != 0x0A) || (c as u32) == 0x7F
                    || (0xFDD0 <= (c as u32) && (c as u32) <= 0xFDEF) || (c as u32) % 0x10000 >= 0xFFFE),
        ),
    decreases s.len() - i,
{
    let keep = |c: char|
        !(((c as u32) < 0x20 && (c as u32) != 0x09 && (c as u32) != 0x0A) || (c as u32) == 0x7F
            || (0xFDD0 <= (c as u32) && (c as u32) <= 0xFDEF) || (c as u32) % 0x10000 >= 0xFFFE);
    if i < s.len() {
        lemma_plain_from(s, i + 1);
        lemma_kept_by_code_point(s[i]);
        assert(s.skip(i) =~= seq![s[i]] + s.skip(i + 1));
        s.skip(i + 1).lemma_filter_prepend(s[i], keep);
    } else {
        assert(s.skip(i) =~= Seq::<char>::empty());
        assert(Seq::<char>::empty().filter(keep) =~= Seq::<char>::empty()) by {
            reveal(Seq::filter);
        }
    }
}

/// Law: outside escape sequences, sanitizing drops exactly the C0 controls
/// other than `\t` and `\n`, DEL, and the Unicode non-characters (U+FDD0..
/// U+FDEF and the code points whose low 16 bits are FFFE or FFFF), and keeps
/// every other character, in order: for text without `ESC`, the result is
/// the text filtered by that rule.
pub proof fn lemma_plain_text_keeps_all_but_stripped(s: Seq<char>)
    requires
        forall|k: int| 0 <= k < s.len() ==> #[trigger] s[k] != '\x1b',
    ensures
        sanitized(s) == s.filter(
            |c: char|
                !(((c as u32) < 0x20 && (c as u32) != 0x09 && (c as u32) != 0x0A) || (c as u32) == 0x7F
                    || (0xFDD0 <= (c as u32) && (c as u32) <= 0xFDEF) || (c as u32) % 0x10000 >= 0xFFFE),
        ),
{
    lemma_plain_from(s, 0);
    assert(s.skip(0) =~= s);
}

} // verus!
