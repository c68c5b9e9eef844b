//! Minimal HTML body renderer: Graph message HTML to rich segments.
//!
//! A hand-rolled scanner: links, code blocks, list and paragraph breaks;
//! every other tag is kept as literal text. Callers sanitize segment text
//! before display.
use vstd::prelude::*;
use crate::domain::rich::{RichSegment, SegmentView};
use crate::text::{
    chars_of, find_chars, find_from, lemma_find_from, matches_at, occurs_at, string_from_chars,
    string_of_range,
};

verus! {

pub open spec fn pat_link_open() -> Seq<char> {
    seq!['<', 'a', ' ']
}

pub open spec fn pat_href() -> Seq<char> {
    seq!['h', 'r', 'e', 'f', '=']
}

pub open spec fn pat_link_close() -> Seq<char> {
    seq!['<', '/', 'a', '>']
}

pub open spec fn pat_pre() -> Seq<char> {
    seq!['<', 'p', 'r', 'e', '>']
}

pub open spec fn pat_code() -> Seq<char> {
    seq!['<', 'c', 'o', 'd', 'e', '>']
}

pub open spec fn pat_code_pre_close() -> Seq<char> {
    seq!['<', '/', 'c', 'o', 'd', 'e', '>', '<', '/', 'p', 'r', 'e', '>']
}

pub open spec fn pat_pre_close() -> Seq<char> {
    seq!['<', '/', 'p', 'r', 'e', '>']
}

pub open spec fn pat_code_close() -> Seq<char> {
    seq!['<', '/', 'c', 'o', 'd', 'e', '>']
}

/// Block tags that become a line break, in the order they are tried.
pub open spec fn break_tags() -> Seq<Seq<char>> {
    seq![
        seq!['<', 'b', 'r', '>'],
        seq!['<', 'b', 'r', '/', '>'],
        seq!['<', 'l', 'i', '>'],
        seq!['<', 'p', '>'],
        seq!['<', '/', 'p', '>'],
        seq!['<', 'd', 'i', 'v', '>'],
        seq!['<', '/', 'd', 'i', 'v', '>'],
        seq!['<', 'u', 'l', '>'],
        seq!['<', '/', 'u', 'l', '>'],
    ]
}

/// `<a ... href="URL" ...>TEXT</a>` at `p`: (text, url, position after).
pub open spec fn link_at(s: Seq<char>, p: int) -> Option<(Seq<char>, Seq<char>, int)> {
    if !occurs_at(s, pat_link_open(), p) {
        None
    } else {
        let b = p + 3;
        let h = find_from(s, pat_href(), b);
        if h < 0 || h + 5 >= s.len() {
            None
        } else {
            let q = s[h + 5];
            if q != '"' && q != '\'' {
                None
            } else {
                let us = h + 6;
                let ue = find_from(s, seq![q], us);
                let te = find_from(s, seq!['>'], b);
                if ue < 0 || te < 0 {
                    None
                } else {
                    let ce = find_from(s, pat_link_close(), te + 1);
                    if ce < 0 {
                        None
                    } else {
                        Some((s.subrange(te + 1, ce), s.subrange(us, ue), ce + 4))
                    }
                }
            }
        }
    }
}

/// A line of a text without its line ending (`\n` or `\r\n`).
pub open spec fn strip_cr(line: Seq<char>) -> Seq<char> {
    if line.len() > 0 && line.last() == '\r' {
        line.drop_last()
    } else {
        line
    }
}

/// The lines of `t` from position `i` on, as `str::lines` splits them.
pub open spec fn lines_from(t: Seq<char>, i: int) -> Seq<Seq<char>>
    decreases t.len() - i,
{
    if i < 0 || i >= t.len() {
        Seq::empty()
    } else {
        let k = find_from(t, seq!['\n'], i);
        if k < i || k >= t.len() {
            seq![t.subrange(i, t.len() as int)]
        } else {
            seq![strip_cr(t.subrange(i, k))] + lines_from(t, k + 1)
        }
    }
}

/// End of a code block's body starting at `b`, and the closing tag's length.
pub open spec fn code_end(s: Seq<char>, b: int) -> (int, int) {
    let e1 = find_from(s, pat_code_pre_close(), b);
    if e1 >= 0 {
        (e1, 13)
    } else {
        let e2 = find_from(s, pat_pre_close(), b);
        if e2 >= 0 {
            (e2, 6)
        } else {
            (find_from(s, pat_code_close(), b), 7)
        }
    }
}

/// Start of a code block's body after `<pre>` at `p` (skipping `<code>`).
pub open spec fn code_body_start(s: Seq<char>, p: int) -> int {
    if occurs_at(s, pat_code(), p + 5) {
        p + 11
    } else {
        p + 5
    }
}

/// `<pre><code>...</code></pre>` (or bare `<pre>`) at `p`: (lines, position after).
pub open spec fn code_at(s: Seq<char>, p: int) -> Option<(Seq<Seq<char>>, int)> {
    if !occurs_at(s, pat_pre(), p) {
        None
    } else {
        let b = code_body_start(s, p);
        let (e, l) = code_end(s, b);
        if e < 0 {
            None
        } else {
            Some((lines_from(s.subrange(b, e), 0), e + l))
        }
    }
}

/// Position after the first break tag of the list found at `p`, from index `t` of the list.
pub open spec fn break_from(s: Seq<char>, p: int, t: int) -> Option<int>
    decreases break_tags().len() - t,
{
    if t < 0 || t >= break_tags().len() {
        None
    } else if occurs_at(s, break_tags()[t], p) {
        Some(p + break_tags()[t].len())
    } else {
        break_from(s, p, t + 1)
    }
}

/// Any other `<...>` tag at `p`: position after its `>`.
pub open spec fn tag_at(s: Seq<char>, p: int) -> Option<int> {
    if 0 <= p < s.len() && s[p] == '<' {
        let e = find_from(s, seq!['>'], p + 1);
        if e < 0 {
            None
        } else {
            Some(e + 1)
        }
    } else {
        None
    }
}

/// End of plain text at `p`: a lone `<` alone, else up to the next `<`.
pub open spec fn plain_end(s: Seq<char>, p: int) -> int {
    if s[p] == '<' {
        p + 1
    } else {
        let q = find_from(s, seq!['<'], p);
        if q < 0 {
            s.len() as int
        } else {
            q
        }
    }
}

/// Pending text becomes a text segment.
pub open spec fn flush(text: Seq<char>, out: Seq<SegmentView>) -> Seq<SegmentView> {
    if text.len() > 0 {
        out.push(SegmentView::Text(text))
    } else {
        out
    }
}

/// The segments rendered from position `p` on, with pending text and
/// segments so far.
pub open spec fn render_from(s: Seq<char>, p: int, text: Seq<char>, out: Seq<SegmentView>) -> Seq<
    SegmentView,
>
    decreases s.len() - p,
{
    if p < 0 || p >= s.len() {
        flush(text, out)
    } else if let Some((t, u, np)) = link_at(s, p) {
        if p < np <= s.len() {
            render_from(s, np, Seq::empty(), flush(text, out).push(SegmentView::Link { text: t, url: u }))
        } else {
            flush(text, out)
        }
    } else if let Some((lines, np)) = code_at(s, p) {
        if p < np <= s.len() {
            render_from(s, np, Seq::empty(), flush(text, out).push(SegmentView::CodeBlock { lines }))
        } else {
            flush(text, out)
        }
    } else if let Some(np) = break_from(s, p, 0) {
        if p < np <= s.len() {
            render_from(s, np, text.push('\n'), out)
        } else {
            flush(text, out)
        }
    } else if let Some(np) = tag_at(s, p) {
        if p < np <= s.len() {
            render_from(s, np, text + s.subrange(p, np), out)
        } else {
            flush(text, out)
        }
    } else {
        let np = plain_end(s, p);
        if p < np <= s.len() {
            render_from(s, np, text + s.subrange(p, np), out)
        } else {
            flush(text, out)
        }
    }
}

/// The segments of an HTML body.
pub open spec fn rendered(s: Seq<char>) -> Seq<SegmentView> {
    render_from(s, 0, Seq::empty(), Seq::empty())
}

/// Views of a segment list.
pub open spec fn segment_views(v: Seq<RichSegment>) -> Seq<SegmentView> {
    v.map_values(|x: RichSegment| x@)
}

/// `cs[from..to]` appended to `dst`.
fn append_range(dst: &mut Vec<char>, cs: &Vec<char>, from: usize, to: usize)
    requires
        from <= to <= cs@.len(),
    ensures
        final(dst)@ == old(dst)@ + cs@.subrange(from as int, to as int),
{
    let mut i = from;
    while i < to
        invariant
            from <= i <= to,
            to <= cs@.len(),
            dst@ == old(dst)@ + cs@.subrange(from as int, i as int),
        decreases to - i,
    {
        dst.push(cs[i]);
        i = i + 1;
        proof {
            assert(cs@.subrange(from as int, i as int) =~= cs@.subrange(from as int, i - 1).push(
                cs@[i - 1],
            ));
        }
    }
}

fn pattern(s: &str) -> (r: Vec<char>)
    ensures
        r@ == s@,
{
    chars_of(s)
}

/// The lines of `t[from..to]`, as `str::lines` gives them.
fn lines_of_range(cs: &Vec<char>, from: usize, to: usize) -> (r: Vec<String>)
    requires
        from <= to <= cs@.len(),
    ensures
        r@.map_values(|l: String| l@) == lines_from(cs@.subrange(from as int, to as int), 0),
{
    let t = {
        let mut v: Vec<char> = Vec::new();
        append_range(&mut v, cs, from, to);
        v
    };
    assert(t@ =~= cs@.subrange(from as int, to as int));
    let nl = pattern("\n");
    proof {
        reveal_strlit("\n");
        assert(nl@ =~= seq!['\n']);
    }
    let mut out: Vec<String> = Vec::new();
    let mut i: usize = 0;
    while i < t.len()
        invariant
            i <= t@.len(),
            nl@ == seq!['\n'],
            out@.map_values(|l: String| l@) + lines_from(t@, i as int) == lines_from(t@, 0),
        decreases t.len() - i,
    {
        let ghost before = out@.map_values(|l: String| l@);
        match find_chars(&t, &nl, i) {
            None => {
                let line = string_of_range(&t, i, t.len());
                out.push(line);
                proof {
                    assert(lines_from(t@, t@.len() as int) =~= Seq::<Seq<char>>::empty());
                    assert(out@.map_values(|l: String| l@) =~= before.push(line@));
                    assert(before + lines_from(t@, i as int) =~= before.push(line@) + lines_from(t@, t@.len() as int));
                }
                i = t.len();
            }
            Some(k) => {
                proof {
                    lemma_find_from(t@, nl@, i as int);
                }
                let line = if k > i && t[k - 1] == '\r' {
                    let l = string_of_range(&t, i, k - 1);
                    proof {
                        assert(t@.subrange(i as int, k as int).drop_last() =~= t@.subrange(i as int, k - 1));
                    }
                    l
                } else {
                    string_of_range(&t, i, k)
                };
                assert(line@ == strip_cr(t@.subrange(i as int, k as int)));
                out.push(line);
                proof {
                    assert(out@.map_values(|l: String| l@) =~= before.push(line@));
                    assert(before + lines_from(t@, i as int) =~= before.push(line@) + lines_from(t@, k + 1));
                }
                i = k + 1;
            }
        }
    }
    proof {
        assert(lines_from(t@, i as int) =~= Seq::<Seq<char>>::empty());
        assert(out@.map_values(|l: String| l@) + lines_from(t@, i as int) =~= out@.map_values(|l: String| l@));
    }
    out
}

/// The block tag of the break list at index `t`.
fn break_tag(t: usize) -> (r: Vec<char>)
    requires
        t < 9,
    ensures
        r@ == break_tags()[t as int],
{
    let v = match t {
        0 => vec!['<', 'b', 'r', '>'],
        1 => vec!['<', 'b', 'r', '/', '>'],
        2 => vec!['<', 'l', 'i', '>'],
        3 => vec!['<', 'p', '>'],
        4 => vec!['<', '/', 'p', '>'],
        5 => vec!['<', 'd', 'i', 'v', '>'],
        6 => vec!['<', '/', 'd', 'i', 'v', '>'],
        7 => vec!['<', 'u', 'l', '>'],
        _ => vec!['<', '/', 'u', 'l', '>'],
    };
    assert(v@ =~= break_tags()[t as int]);
    v
}

struct Scanner {
    cs: Vec<char>,
    pos: usize,
    out: Vec<RichSegment>,
    text: Vec<char>,
}

impl Scanner {
    /// Flush pending text, then push `seg`.
    fn push(&mut self, seg: RichSegment)
        ensures
            segment_views(final(self).out@) == flush(old(self).text@, segment_views(old(self).out@)).push(seg@),
            final(self).text@ == Seq::<char>::empty(),
            final(self).cs == old(self).cs,
            final(self).pos == old(self).pos,
    {
        if self.text.len() > 0 {
            let t = string_from_chars(&self.text);
            self.text = Vec::new();
            let ghost before = self.out@;
            self.out.push(RichSegment::Text(t));
            proof {
                assert(segment_views(self.out@) =~= segment_views(before).push(
                    SegmentView::Text(t@),
                ));
            }
        } else {
            proof {
                assert(self.text@ =~= Seq::<char>::empty());
            }
        }
        let ghost before = self.out@;
        self.out.push(seg);
        proof {
            assert(segment_views(self.out@) =~= segment_views(before).push(seg@));
        }
    }

    /// Flush pending text and hand out the segments.
    fn finish(self) -> (r: Vec<RichSegment>)
        ensures
            segment_views(r@) == flush(self.text@, segment_views(self.out@)),
    {
        let mut out = self.out;
        if self.text.len() > 0 {
            let t = string_from_chars(&self.text);
            let ghost before = out@;
            out.push(RichSegment::Text(t));
            proof {
                assert(segment_views(out@) =~= segment_views(before).push(SegmentView::Text(self.text@)));
            }
        }
        out
    }

    /// `<a href="URL">text</a>` at the current position.
    fn try_link(&self) -> (r: Option<(String, String, usize)>)
        ensures
            match r {
                Some((t, u, np)) => link_at(self.cs@, self.pos as int) == Some((t@, u@, np as int))
                    && self.pos < np <= self.cs@.len(),
                None => link_at(self.cs@, self.pos as int) is None,
            },
    {
        let cs = &self.cs;
        let p = self.pos;
        let n = cs.len();
        let open = pattern("<a ");
        let href = pattern("href=");
        let close = pattern("</a>");
        let gt = pattern(">");
        proof {
            reveal_strlit("<a ");
            reveal_strlit("href=");
            reveal_strlit("</a>");
            reveal_strlit(">");
            assert(open@ =~= pat_link_open());
            assert(href@ =~= pat_href());
            assert(close@ =~= pat_link_close());
            assert(gt@ =~= seq!['>']);
        }
        if !matches_at(cs, &open, p) {
            return None;
        }
        let b = p + 3;
        let h = match find_chars(cs, &href, b) {
            Some(h) => h,
            None => return None,
        };
        proof {
            lemma_find_from(cs@, href@, b as int);
        }
        if h + 5 >= cs.len() {
            return None;
        }
        let q = cs[h + 5];
        if q != '"' && q != '\'' {
            return None;
        }
        let us = h + 6;
        let quote = vec![q];
        assert(quote@ =~= seq![q]);
        let ue = match find_chars(cs, &quote, us) {
            Some(e) => e,
            None => return None,
        };
        let te = match find_chars(cs, &gt, b) {
            Some(e) => e,
            None => return None,
        };
        proof {
            lemma_find_from(cs@, quote@, us as int);
            lemma_find_from(cs@, gt@, b as int);
        }
        let ce = match find_chars(cs, &close, te + 1) {
            Some(e) => e,
            None => return None,
        };
        proof {
            lemma_find_from(cs@, close@, te + 1);
        }
        let text = string_of_range(cs, te + 1, ce);
        let url = string_of_range(cs, us, ue);
        Some((text, url, ce + 4))
    }

    /// `<pre><code>...</code></pre>` (or bare `<pre>`) at the current position.
    fn try_code_block(&self) -> (r: Option<(Vec<String>, usize)>)
        ensures
            match r {
                Some((lines, np)) => code_at(self.cs@, self.pos as int) == Some(
                    (lines@.map_values(|l: String| l@), np as int),
                ) && self.pos < np <= self.cs@.len(),
                None => code_at(self.cs@, self.pos as int) is None,
            },
    {
        let cs = &self.cs;
        let p = self.pos;
        let n = cs.len();
        let pre = pattern("<pre>");
        let code = pattern("<code>");
        let c1 = pattern("</code></pre>");
        let c2 = pattern("</pre>");
        let c3 = pattern("</code>");
        proof {
            reveal_strlit("<pre>");
            reveal_strlit("<code>");
            reveal_strlit("</code></pre>");
            reveal_strlit("</pre>");
            reveal_strlit("</code>");
            assert(pre@ =~= pat_pre());
            assert(code@ =~= pat_code());
            assert(c1@ =~= pat_code_pre_close());
            assert(c2@ =~= pat_pre_close());
            assert(c3@ =~= pat_code_close());
        }
        if !matches_at(cs, &pre, p) {
            return None;
        }
        let b = if matches_at(cs, &code, p + 5) {
            p + 11
        } else {
            p + 5
        };
        let (e, l): (usize, usize) = match find_chars(cs, &c1, b) {
            Some(e) => (e, 13),
            None => match find_chars(cs, &c2, b) {
                Some(e) => (e, 6),
                None => match find_chars(cs, &c3, b) {
                    Some(e) => (e, 7),
                    None => return None,
                },
            },
        };
        proof {
            lemma_find_from(cs@, c1@, b as int);
            lemma_find_from(cs@, c2@, b as int);
            lemma_find_from(cs@, c3@, b as int);
        }
        let lines = lines_of_range(cs, b, e);
        Some((lines, e + l))
    }

    /// Position after a block tag that becomes a line break.
    fn try_line_break(&self) -> (r: Option<usize>)
        ensures
            match r {
                Some(np) => break_from(self.cs@, self.pos as int, 0) == Some(np as int)
                    && self.pos < np <= self.cs@.len(),
                None => break_from(self.cs@, self.pos as int, 0) is None,
            },
    {
        let mut t: usize = 0;
        let n = self.cs.len();
        while t < 9
            invariant
                t <= 9,
                n == self.cs@.len(),
                break_from(self.cs@, self.pos as int, 0) == break_from(self.cs@, self.pos as int, t as int),
            decreases 9 - t,
        {
            let tag = break_tag(t);
            if matches_at(&self.cs, &tag, self.pos) {
                return Some(self.pos + tag.len());
            }
            t = t + 1;
        }
        None
    }

    /// Position after any other `<...>` tag at the current position.
    fn try_tag(&self) -> (r: Option<usize>)
        ensures
            match r {
                Some(np) => tag_at(self.cs@, self.pos as int) == Some(np as int)
                    && self.pos < np <= self.cs@.len(),
                None => tag_at(self.cs@, self.pos as int) is None,
            },
    {
        let p = self.pos;
        if p < self.cs.len() && self.cs[p] == '<' {
            let gt = vec!['>'];
            assert(gt@ =~= seq!['>']);
            match find_chars(&self.cs, &gt, p + 1) {
                Some(e) => {
                    proof {
                        lemma_find_from(self.cs@, gt@, p + 1);
                    }
                    Some(e + 1)
                },
                None => None,
            }
        } else {
            None
        }
    }

    /// End of plain text at the current position.
    fn plain_end(&self) -> (r: usize)
        requires
            self.pos < self.cs@.len(),
        ensures
            r as int == plain_end(self.cs@, self.pos as int),
            self.pos < r <= self.cs@.len(),
    {
        let p = self.pos;
        let n = self.cs.len();
        if self.cs[p] == '<' {
            p + 1
        } else {
            let lt = vec!['<'];
            assert(lt@ =~= seq!['<']);
            proof {
                lemma_find_from(self.cs@, lt@, p as int);
            }
            match find_chars(&self.cs, &lt, p) {
                Some(q) => {
                    proof {
                        assert(self.cs@.subrange(q as int, q + 1)[0] == '<');
                    }
                    q
                },
                None => self.cs.len(),
            }
        }
    }

    /// Scans the whole input.
    fn run(&mut self)
        requires
            old(self).pos == 0,
            old(self).text@ == Seq::<char>::empty(),
            old(self).out@ == Seq::<RichSegment>::empty(),
        ensures
            final(self).pos >= final(self).cs@.len(),
            final(self).cs == old(self).cs,
            flush(final(self).text@, segment_views(final(self).out@)) == rendered(old(self).cs@),
    {
        proof {
            assert(segment_views(self.out@) =~= Seq::<SegmentView>::empty());
        }
        while self.pos < self.cs.len()
            invariant
                self.cs == old(self).cs,
                render_from(self.cs@, self.pos as int, self.text@, segment_views(self.out@))
                    == rendered(self.cs@),
            decreases self.cs@.len() - self.pos,
        {
            let ghost p = self.pos as int;
            let ghost s = self.cs@;
            if let Some((t, u, np)) = self.try_link() {
                self.push(RichSegment::Link { text: t, url: u });
                self.pos = np;
            } else if let Some((lines, np)) = self.try_code_block() {
                self.push(RichSegment::CodeBlock { lines });
                self.pos = np;
            } else if let Some(np) = self.try_line_break() {
                self.text.push('\n');
                self.pos = np;
            } else if let Some(np) = self.try_tag() {
                let from = self.pos;
                append_range(&mut self.text, &self.cs, from, np);
                self.pos = np;
            } else {
                let np = self.plain_end();
                let from = self.pos;
                append_range(&mut self.text, &self.cs, from, np);
                self.pos = np;
            }
        }
    }
}

/// Renders a Graph message HTML body into segments. Malformed markup falls
/// back to plain text of whatever survives; never fails.
pub fn render_html_body(html: &str) -> (r: Vec<RichSegment>)
    ensures
        segment_views(r@) == rendered(html@),
{
    let mut scanner = Scanner { cs: chars_of(html), pos: 0, out: Vec::new(), text: Vec::new() };
    scanner.run();
    scanner.finish()
}

/// `<at id="N">Name</at>` from position `p` on, each turned into `@Name`;
/// an `<at ` without both a `>` and a later `</at>` ends the rewriting.
pub open spec fn at_from(s: Seq<char>, p: int) -> Seq<char>
    decreases s.len() - p,
{
    if p < 0 || p > s.len() {
        Seq::empty()
    } else {
        let st = find_from(s, seq!['<', 'a', 't', ' '], p);
        if st < p {
            s.subrange(p, s.len() as int)
        } else {
            let te = find_from(s, seq!['>'], st);
            let cl = find_from(s, seq!['<', '/', 'a', 't', '>'], st);
            if te >= 0 && cl > te && p < cl + 5 <= s.len() {
                s.subrange(p, st) + seq!['@'] + s.subrange(te + 1, cl) + at_from(s, cl + 5)
            } else {
                s.subrange(p, s.len() as int)
            }
        }
    }
}

/// Converts `<at id="N">Name</at>` mentions to `@Name`; other markup passes
/// through unchanged.
pub fn render_at_tags(html: &str) -> (r: String)
    ensures
        r@ == at_from(html@, 0),
{
    let cs = chars_of(html);
    let n = cs.len();
    let open = pattern("<at ");
    let close = pattern("</at>");
    let gt = pattern(">");
    proof {
        reveal_strlit("<at ");
        reveal_strlit("</at>");
        reveal_strlit(">");
        assert(open@ =~= seq!['<', 'a', 't', ' ']);
        assert(close@ =~= seq!['<', '/', 'a', 't', '>']);
        assert(gt@ =~= seq!['>']);
    }
    let mut out: Vec<char> = Vec::new();
    let mut p: usize = 0;
    loop
        invariant
            p <= n,
            n == cs@.len(),
            cs@ == html@,
            open@ == seq!['<', 'a', 't', ' '],
            close@ == seq!['<', '/', 'a', 't', '>'],
            gt@ == seq!['>'],
            out@ + at_from(cs@, p as int) == at_from(cs@, 0),
        decreases n - p,
    {
        let ghost before = out@;
        proof {
            lemma_find_from(cs@, open@, p as int);
        }
        match find_chars(&cs, &open, p) {
            None => {
                append_range(&mut out, &cs, p, n);
                proof {
                    assert(out@ =~= at_from(cs@, 0));
                }
                return string_from_chars(&out);
            },
            Some(st) => {
                proof {
                    lemma_find_from(cs@, gt@, st as int);
                    lemma_find_from(cs@, close@, st as int);
                }
                let te = find_chars(&cs, &gt, st);
                let cl = find_chars(&cs, &close, st);
                match (te, cl) {
                    (Some(te), Some(cl)) if cl > te => {
                        append_range(&mut out, &cs, p, st);
                        out.push('@');
                        append_range(&mut out, &cs, te + 1, cl);
                        proof {
                            assert(out@ + at_from(cs@, cl + 5) =~= before + at_from(cs@, p as int));
                        }
                        p = cl + 5;
                    },
                    _ => {
                        append_range(&mut out, &cs, p, n);
                        proof {
                            assert(out@ =~= at_from(cs@, 0));
                        }
                        return string_from_chars(&out);
                    },
                }
            },
        }
    }
}

/// Law: text without markup passes through: a body with no `<` renders to
/// one text segment holding all of it (nothing for an empty body), and has
/// no mention to rewrite.
pub proof fn lemma_plain_text_passes_through(s: Seq<char>)
    requires
        forall|i: int| 0 <= i < s.len() ==> #[trigger] s[i] != '<',
    ensures
        s.len() == 0 ==> rendered(s) == Seq::<SegmentView>::empty(),
        s.len() > 0 ==> rendered(s) == seq![SegmentView::Text(s)],
        at_from(s, 0) == s,
{
    lemma_find_from(s, seq!['<', 'a', 't', ' '], 0);
    if find_from(s, seq!['<', 'a', 't', ' '], 0) >= 0 {
        let k = find_from(s, seq!['<', 'a', 't', ' '], 0);
        assert(s.subrange(k, k + 4)[0] == s[k]);
    }
    assert(s.subrange(0, s.len() as int) =~= s);
    if s.len() > 0 {
        lemma_find_from(s, seq!['<'], 0);
        if find_from(s, seq!['<'], 0) >= 0 {
            let k = find_from(s, seq!['<'], 0);
            assert(s.subrange(k, k + 1)[0] == s[k]);
        }
        assert(!occurs_at(s, pat_link_open(), 0)) by {
            if occurs_at(s, pat_link_open(), 0) {
                assert(s.subrange(0, 3)[0] == s[0]);
            }
        }
        assert(!occurs_at(s, pat_pre(), 0)) by {
            if occurs_at(s, pat_pre(), 0) {
                assert(s.subrange(0, 5)[0] == s[0]);
            }
        }
        assert(break_from(s, 0, 0) is None) by {
            reveal_with_fuel(break_from, 10);
            assert forall|t: int| 0 <= t < 9 implies !occurs_at(s, #[trigger] break_tags()[t], 0) by {
                if occurs_at(s, break_tags()[t], 0) {
                    assert(s.subrange(0, break_tags()[t].len() as int)[0] == s[0]);
                }
            }
        }
        assert(Seq::<char>::empty() + s.subrange(0, s.len() as int) =~= s);
        assert(render_from(s, s.len() as int, s, Seq::empty()) == seq![SegmentView::Text(s)]);
    }
}

/// A pattern that differs from the text at offset `d` does not occur there.
proof fn lemma_not_at(s: Seq<char>, pat: Seq<char>, p: int, d: int)
    requires
        0 <= p,
        0 <= d < pat.len(),
        p + d < s.len(),
        s[p + d] != pat[d],
    ensures
        !occurs_at(s, pat, p),
{
    if occurs_at(s, pat, p) {
        assert(s.subrange(p, p + pat.len())[d] == s[p + d]);
    }
}

/// The block tags, spelt out: `<br>`, `<br/>`, `<li>`, `<p>`, `</p>`,
/// `<div>`, `</div>`, `<ul>`, `</ul>`.
pub open spec fn is_block_tag(g: Seq<char>) -> bool {
    g == seq!['<', 'b', 'r', '>'] || g == seq!['<', 'b', 'r', '/', '>'] || g == seq!['<', 'l', 'i', '>'] || g == seq!['<', 'p', '>'] || g == seq!['<', '/', 'p', '>'] || g == seq!['<', 'd', 'i', 'v', '>'] || g == seq!['<', '/', 'd', 'i', 'v', '>'] || g == seq!['<', 'u', 'l', '>'] || g == seq!['<', '/', 'u', 'l', '>']
}

/// Law: at any scan position, each block tag (`<br>`, `<br/>`, `<li>`, `<p>`,
/// `</p>`, `<div>`, `</div>`, `<ul>`, `</ul>`) adds exactly one `\n` to the
/// pending text and nothing else: rendering from there is rendering from
/// just past the tag with a line break pending.
pub proof fn lemma_block_tag_is_line_break(
    s: Seq<char>,
    p: int,
    g: Seq<char>,
    text: Seq<char>,
    out: Seq<SegmentView>,
)
    requires
        is_block_tag(g),
        0 <= p,
        p + g.len() <= s.len(),
        s.subrange(p, p + g.len()) == g,
    ensures
        render_from(s, p, text, out) == render_from(s, p + g.len(), text.push('\n'), out),
{
    assert(occurs_at(s, g, p));
    assert forall|d: int| 0 <= d < g.len() implies s[p + d] == #[trigger] g[d] by {
        assert(s.subrange(p, p + g.len())[d] == s[p + d]);
    }
    reveal_with_fuel(break_from, 10);
        if g =~= seq!['<', 'b', 'r', '>'] {
            assert(break_tags()[0] =~= g);
            lemma_not_at(s, pat_link_open(), p, 1);
            lemma_not_at(s, pat_pre(), p, 1);
        } else if g =~= seq!['<', 'b', 'r', '/', '>'] {
            assert(break_tags()[1] =~= g);
            lemma_not_at(s, break_tags()[0], p, 3);
            lemma_not_at(s, pat_link_open(), p, 1);
            lemma_not_at(s, pat_pre(), p, 1);
        } else if g =~= seq!['<', 'l', 'i', '>'] {
            assert(break_tags()[2] =~= g);
            lemma_not_at(s, break_tags()[0], p, 1);
            lemma_not_at(s, break_tags()[1], p, 1);
            lemma_not_at(s, pat_link_open(), p, 1);
            lemma_not_at(s, pat_pre(), p, 1);
        } else if g =~= seq!['<', 'p', '>'] {
            assert(break_tags()[3] =~= g);
            lemma_not_at(s, break_tags()[0], p, 1);
            lemma_not_at(s, break_tags()[1], p, 1);
            lemma_not_at(s, break_tags()[2], p, 1);
            lemma_not_at(s, pat_link_open(), p, 1);
            lemma_not_at(s, pat_pre(), p, 2);
        } else if g =~= seq!['<', '/', 'p', '>'] {
            assert(break_tags()[4] =~= g);
            lemma_not_at(s, break_tags()[0], p, 1);
            lemma_not_at(s, break_tags()[1], p, 1);
            lemma_not_at(s, break_tags()[2], p, 1);
            lemma_not_at(s, break_tags()[3], p, 1);
            lemma_not_at(s, pat_link_open(), p, 1);
            lemma_not_at(s, pat_pre(), p, 1);
        } else if g =~= seq!['<', 'd', 'i', 'v', '>'] {
            assert(break_tags()[5] =~= g);
            lemma_not_at(s, break_tags()[0], p, 1);
            lemma_not_at(s, break_tags()[1], p, 1);
            lemma_not_at(s, break_tags()[2], p, 1);
            lemma_not_at(s, break_tags()[3], p, 1);
            lemma_not_at(s, break_tags()[4], p, 1);
            lemma_not_at(s, pat_link_open(), p, 1);
            lemma_not_at(s, pat_pre(), p, 1);
        } else if g =~= seq!['<', '/', 'd', 'i', 'v', '>'] {
            assert(break_tags()[6] =~= g);
            lemma_not_at(s, break_tags()[0], p, 1);
            lemma_not_at(s, break_tags()[1], p, 1);
            lemma_not_at(s, break_tags()[2], p, 1);
            lemma_not_at(s, break_tags()[3], p, 1);
            lemma_not_at(s, break_tags()[4], p, 2);
            lemma_not_at(s, break_tags()[5], p, 1);
            lemma_not_at(s, pat_link_open(), p, 1);
            lemma_not_at(s, pat_pre(), p, 1);
        } else if g =~= seq!['<', 'u', 'l', '>'] {
            assert(break_tags()[7] =~= g);
            lemma_not_at(s, break_tags()[0], p, 1);
            lemma_not_at(s, break_tags()[1], p, 1);
            lemma_not_at(s, break_tags()[2], p, 1);
            lemma_not_at(s, break_tags()[3], p, 1);
            lemma_not_at(s, break_tags()[4], p, 1);
            lemma_not_at(s, break_tags()[5], p, 1);
            lemma_not_at(s, break_tags()[6], p, 1);
            lemma_not_at(s, pat_link_open(), p, 1);
            lemma_not_at(s, pat_pre(), p, 1);
        } else if g =~= seq!['<', '/', 'u', 'l', '>'] {
            assert(break_tags()[8] =~= g);
            lemma_not_at(s, break_tags()[0], p, 1);
            lemma_not_at(s, break_tags()[1], p, 1);
            lemma_not_at(s, break_tags()[2], p, 1);
            lemma_not_at(s, break_tags()[3], p, 1);
            lemma_not_at(s, break_tags()[4], p, 2);
            lemma_not_at(s, break_tags()[5], p, 1);
            lemma_not_at(s, break_tags()[6], p, 2);
            lemma_not_at(s, break_tags()[7], p, 1);
            lemma_not_at(s, pat_link_open(), p, 1);
            lemma_not_at(s, pat_pre(), p, 1);
        }
    assert(link_at(s, p) is None);
    assert(code_at(s, p) is None);
    assert(break_from(s, p, 0) == Some(p + g.len()));
}

/// Rendering text without markup appends it to the pending text.
proof fn lemma_render_plain_rest(s: Seq<char>, p: int, text: Seq<char>, out: Seq<SegmentView>)
    requires
        0 <= p <= s.len(),
        forall|k: int| p <= k < s.len() ==> #[trigger] s[k] != '<',
    ensures
        render_from(s, p, text, out) == flush(text + s.subrange(p, s.len() as int), out),
{
    if p < s.len() {
        lemma_find_from(s, seq!['<'], p);
        if find_from(s, seq!['<'], p) >= 0 {
            let k = find_from(s, seq!['<'], p);
            assert(s.subrange(k, k + 1)[0] == s[k]);
        }
        lemma_not_at(s, pat_link_open(), p, 0);
        lemma_not_at(s, pat_pre(), p, 0);
        reveal_with_fuel(break_from, 10);
        assert forall|t: int| 0 <= t < 9 implies !occurs_at(s, #[trigger] break_tags()[t], p) by {
            lemma_not_at(s, break_tags()[t], p, 0);
        }
        assert(render_from(s, s.len() as int, text + s.subrange(p, s.len() as int), out) == flush(
            text + s.subrange(p, s.len() as int),
            out,
        ));
    } else {
        assert(text + s.subrange(p, s.len() as int) =~= text);
    }
}

/// Law: a block tag between two runs of plain text renders as one text
/// segment with a single line break in its place; the tag never shows.
pub proof fn lemma_block_tag_between_text(a: Seq<char>, g: Seq<char>, b: Seq<char>)
    requires
        is_block_tag(g),
        forall|k: int| 0 <= k < a.len() ==> #[trigger] a[k] != '<',
        forall|k: int| 0 <= k < b.len() ==> #[trigger] b[k] != '<',
    ensures
        rendered(a + g + b) == seq![SegmentView::Text(a + seq!['\n'] + b)],
{
    let s = a + g + b;
    let p = a.len() as int;
    assert(s.subrange(p, p + g.len()) =~= g);
    assert(s[p] == '<');
    if a.len() > 0 {
        lemma_find_from(s, seq!['<'], 0);
        assert(s.subrange(p, p + 1) =~= seq!['<']);
        assert(occurs_at(s, seq!['<'], p));
        let k = find_from(s, seq!['<'], 0);
        if 0 <= k < p {
            assert(s.subrange(k, k + 1)[0] == s[k]);
            assert(s[k] == a[k]);
        }
        if k < 0 {
            assert(s.subrange(p, p + 1) =~= seq!['<']);
            assert(occurs_at(s, seq!['<'], p));
        }
        assert(k == p);
        lemma_not_at(s, pat_link_open(), 0, 0);
        lemma_not_at(s, pat_pre(), 0, 0);
        reveal_with_fuel(break_from, 10);
        assert forall|t: int| 0 <= t < 9 implies !occurs_at(s, #[trigger] break_tags()[t], 0) by {
            lemma_not_at(s, break_tags()[t], 0, 0);
        }
        assert(s.subrange(0, p) =~= a);
        assert(Seq::<char>::empty() + a =~= a);
        assert(render_from(s, 0, Seq::empty(), Seq::empty()) == render_from(s, p, a, Seq::empty()));
    } else {
        assert(Seq::<char>::empty() =~= a);
    }
    lemma_block_tag_is_line_break(s, p, g, a, Seq::empty());
    let q = p + g.len();
    assert forall|k: int| q <= k < s.len() implies #[trigger] s[k] != '<' by {
        assert(s[k] == b[k - q]);
    }
    lemma_render_plain_rest(s, q, a.push('\n'), Seq::empty());
    assert(s.subrange(q, s.len() as int) =~= b);
    assert(a.push('\n') + b =~= a + seq!['\n'] + b);
}

} // verus!
