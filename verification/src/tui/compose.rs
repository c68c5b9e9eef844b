//! Message composer buffer and command-palette filter: pure input models.
use vstd::prelude::*;
use crate::text::{
    chars_of, find_chars, find_from, is_blank, is_blank_text, lemma_find_from, occurs_at, owned,
    string_of_range,
};

verus! {

/// Editable single-submission message buffer.
#[derive(Debug, Clone, PartialEq, Eq)]
pub struct Composer {
    buffer: String,
}

impl View for Composer {
    type V = Seq<char>;

    closed spec fn view(&self) -> Seq<char> {
        self.buffer@
    }
}

impl Default for Composer {
    fn default() -> (c: Composer)
        ensures
            c@ == Seq::<char>::empty(),
    {
        Composer { buffer: String::new() }
    }
}

impl Composer {
    /// An empty buffer.
    pub fn new() -> (c: Composer)
        ensures
            c@ == Seq::<char>::empty(),
    {
        Composer { buffer: String::new() }
    }

    /// Appends typed text.
    pub fn insert(&mut self, s: &str)
        ensures
            final(self)@ == old(self)@ + s@,
    {
        self.buffer.append(s);
    }

    /// Deletes the last `n` characters; a shorter buffer becomes empty.
    pub fn backspace(&mut self, n: usize)
        ensures
            final(self)@ == old(self)@.take(
                if n <= old(self)@.len() { old(self)@.len() - n } else { 0 },
            ),
    {
        let cs = chars_of(self.buffer.as_str());
        let keep = if n <= cs.len() { cs.len() - n } else { 0 };
        self.buffer = string_of_range(&cs, 0, keep);
    }

    /// The buffer's text.
    pub fn text(&self) -> (r: &str)
        ensures
            r@ == self@,
    {
        self.buffer.as_str()
    }

    /// Takes the buffer when it holds non-blank text, leaving it empty; blank
    /// input is refused and kept, so the user loses nothing.
    pub fn submit(&mut self) -> (r: Option<String>)
        ensures
            is_blank_text(old(self)@) ==> (r is None && final(self)@ == old(self)@),
            !is_blank_text(old(self)@) ==> (r matches Some(t) && t@ == old(self)@ && final(self)@
                == Seq::<char>::empty()),
    {
        if is_blank(self.buffer.as_str()) {
            return None;
        }
        let mut taken = String::new();
        std::mem::swap(&mut taken, &mut self.buffer);
        Some(taken)
    }
}

/// What `str::to_lowercase` makes of a text (Unicode lower-case mapping).
pub uninterp spec fn lowercase(s: Seq<char>) -> Seq<char>;

/// `str::to_lowercase`: the Unicode lower-case mapping of every character.
/// Claims only that the result depends on the text alone (named
/// `lowercase`); the mapping itself is left unsaid.
#[verifier::external_body]
fn to_lowercase(s: &str) -> (r: String)
    ensures
        r@ == lowercase(s@),
{
    s.to_lowercase()
}

/// Whether `needle` occurs in `hay`.
pub open spec fn contains_text(hay: Seq<char>, needle: Seq<char>) -> bool {
    find_from(hay, needle, 0) >= 0
}

/// The commands, in order, whose lowered form contains `query`.
pub open spec fn matching(commands: Seq<Seq<char>>, lowered: Seq<Seq<char>>, query: Seq<char>) -> Seq<
    Seq<char>,
>
    decreases commands.len(),
{
    if commands.len() == 0 {
        Seq::empty()
    } else {
        let rest = matching(commands.drop_last(), lowered.drop_last(), query);
        if contains_text(lowered[commands.len() - 1], query) {
            rest.push(commands.last())
        } else {
            rest
        }
    }
}

pub open spec fn texts(v: Seq<String>) -> Seq<Seq<char>> {
    v.map_values(|s: String| s@)
}

/// The commands whose lowered form (`lowered[i]` for `commands[i]`)
/// contains the lowered query, in order.
pub fn select_matching(commands: &Vec<String>, lowered: &Vec<String>, query: &str) -> (r: Vec<String>)
    requires
        lowered@.len() == commands@.len(),
    ensures
        texts(r@) == matching(texts(commands@), texts(lowered@), query@),
{
    let q = chars_of(query);
    let mut out: Vec<String> = Vec::new();
    let mut i: usize = 0;
    while i < commands.len()
        invariant
            i <= commands@.len(),
            lowered@.len() == commands@.len(),
            q@ == query@,
            texts(out@) == matching(
                texts(commands@).take(i as int),
                texts(lowered@).take(i as int),
                query@,
            ),
        decreases commands.len() - i,
    {
        proof {
            assert(texts(commands@).take(i + 1).drop_last() =~= texts(commands@).take(i as int));
            assert(texts(lowered@).take(i + 1).drop_last() =~= texts(lowered@).take(i as int));
            assert(texts(lowered@).take(i + 1)[i as int] == lowered@[i as int]@);
        }
        let l = chars_of(lowered[i].as_str());
        let ghost before = out@;
        if find_chars(&l, &q, 0).is_some() {
            out.push(commands[i].clone());
            proof {
                assert(texts(out@) =~= texts(before).push(commands@[i as int]@));
            }
        }
        i = i + 1;
    }
    proof {
        assert(texts(commands@).take(commands@.len() as int) =~= texts(commands@));
        assert(texts(lowered@).take(commands@.len() as int) =~= texts(lowered@));
    }
    out
}

/// Case-insensitive substring filter over command names.
#[derive(Debug, Clone)]
pub struct Palette {
    commands: Vec<String>,
}

/// The lower-cased forms of a list of texts.
pub open spec fn lowered_all(v: Seq<Seq<char>>) -> Seq<Seq<char>> {
    v.map_values(|s: Seq<char>| lowercase(s))
}

impl Palette {
    pub fn new(commands: Vec<String>) -> (p: Palette)
        ensures
            p.names() == texts(commands@),
    {
        Palette { commands }
    }

    /// The command names, in order.
    pub closed spec fn names(&self) -> Seq<Seq<char>> {
        texts(self.commands@)
    }

    /// The commands that contain `query`, both lower-cased, in order.
    pub fn filter(&self, query: &str) -> (r: Vec<String>)
        ensures
            texts(r@) == matching(self.names(), lowered_all(self.names()), lowercase(query@)),
    {
        let q = to_lowercase(query);
        let mut lowered: Vec<String> = Vec::new();
        let mut i: usize = 0;
        while i < self.commands.len()
            invariant
                i <= self.commands@.len(),
                texts(lowered@) == lowered_all(texts(self.commands@)).take(i as int),
            decreases self.commands.len() - i,
        {
            let l = to_lowercase(self.commands[i].as_str());
            let ghost before = lowered@;
            let ghost all = lowered_all(texts(self.commands@));
            lowered.push(l);
            proof {
                assert(texts(lowered@) =~= texts(before).push(l@));
                assert(all[i as int] == lowercase(self.commands@[i as int]@));
                assert(all.take(i + 1) =~= all.take(i as int).push(all[i as int]));
            }
            i = i + 1;
        }
        proof {
            assert(lowered_all(texts(self.commands@)).take(i as int) =~= lowered_all(
                texts(self.commands@),
            ));
        }
        select_matching(&self.commands, &lowered, q.as_str())
    }
}

/// `name` holds `query` somewhere: it splits as `p + query + t`.
pub open spec fn holds_part(name: Seq<char>, query: Seq<char>) -> bool {
    exists|p: Seq<char>, t: Seq<char>| name == #[trigger] (p + query + t)
}

/// `needle` occurs in `hay` exactly when `hay` splits around it.
proof fn lemma_contains_is_split(hay: Seq<char>, needle: Seq<char>)
    ensures
        contains_text(hay, needle) <==> holds_part(hay, needle),
{
    lemma_find_from(hay, needle, 0);
    let k = find_from(hay, needle, 0);
    if k >= 0 {
        let p = hay.subrange(0, k);
        let t = hay.subrange(k + needle.len(), hay.len() as int);
        assert(hay =~= p + needle + t);
    }
    if holds_part(hay, needle) {
        let (p, t) = choose|p: Seq<char>, t: Seq<char>| hay == #[trigger] (p + needle + t);
        assert(hay.subrange(p.len() as int, (p.len() + needle.len()) as int) =~= needle);
        assert(occurs_at(hay, needle, p.len() as int));
    }
}

/// A name no copy of which holds the query is never kept.
proof fn lemma_matching_excludes(
    commands: Seq<Seq<char>>,
    lowered: Seq<Seq<char>>,
    query: Seq<char>,
    x: Seq<char>,
)
    requires
        lowered.len() == commands.len(),
        forall|j: int| 0 <= j < commands.len() && commands[j] == x ==> !contains_text(#[trigger] lowered[j], query),
    ensures
        !matching(commands, lowered, query).contains(x),
    decreases commands.len(),
{
    if commands.len() > 0 {
        let n = commands.len() - 1;
        let c0 = commands.drop_last();
        let l0 = lowered.drop_last();
        assert forall|j: int| 0 <= j < c0.len() && c0[j] == x implies !contains_text(#[trigger] l0[j], query) by {
            assert(c0[j] == commands[j] && l0[j] == lowered[j]);
        }
        lemma_matching_excludes(c0, l0, query, x);
        let rest = matching(c0, l0, query);
        let m = matching(commands, lowered, query);
        if m.contains(x) {
            let k = choose|k: int| 0 <= k < m.len() && m[k] == x;
            if k < rest.len() {
                assert(m[k] == rest[k]);
            } else {
                assert(m[k] == commands[n]);
            }
        }
    }
}

/// Law: the palette keeps a command exactly when its lowered name contains
/// the query anywhere (at the start, in the middle or at the end), that is
/// when the lowered name splits as `p + query + t`. Copies of one name share
/// their lowered form, as lower-casing is a function of the name.
pub proof fn lemma_matching_is_substring_filter(
    commands: Seq<Seq<char>>,
    lowered: Seq<Seq<char>>,
    query: Seq<char>,
)
    requires
        lowered.len() == commands.len(),
        forall|i: int, j: int|
            0 <= i < commands.len() && 0 <= j < commands.len() && #[trigger] commands[i]
                == #[trigger] commands[j] ==> lowered[i] == lowered[j],
    ensures
        forall|i: int, p: Seq<char>, t: Seq<char>|
            #![trigger lowered[i], p + query + t]
            0 <= i < commands.len() && lowered[i] == p + query + t ==> matching(
                commands,
                lowered,
                query,
            ).contains(commands[i]),
        forall|i: int|
            0 <= i < commands.len() ==> (matching(commands, lowered, query).contains(
                #[trigger] commands[i],
            ) <==> holds_part(lowered[i], query)),
    decreases commands.len(),
{
    if commands.len() > 0 {
        let n = commands.len() - 1;
        let c0 = commands.drop_last();
        let l0 = lowered.drop_last();
        assert forall|i: int, j: int|
            0 <= i < c0.len() && 0 <= j < c0.len() && #[trigger] c0[i] == #[trigger] c0[j] implies l0[i]
                == l0[j] by {
            assert(c0[i] == commands[i] && c0[j] == commands[j]);
        }
        lemma_matching_is_substring_filter(c0, l0, query);
        lemma_contains_is_split(lowered[n], query);
        let rest = matching(c0, l0, query);
        let m = matching(commands, lowered, query);
        assert forall|i: int| 0 <= i < commands.len() implies (m.contains(#[trigger] commands[i])
            <==> holds_part(lowered[i], query)) by {
            lemma_contains_is_split(lowered[i], query);
            if holds_part(lowered[i], query) {
                if i == n {
                    assert(m[m.len() - 1] == commands[i]);
                } else {
                    assert(l0[i] == lowered[i]);
                    assert(c0[i] == commands[i]);
                    assert(rest.contains(c0[i]));
                    let j = choose|j: int| 0 <= j < rest.len() && rest[j] == commands[i];
                    assert(m[j] == rest[j]);
                }
            } else {
                assert forall|j: int| 0 <= j < commands.len() && commands[j] == commands[i] implies !contains_text(
                    #[trigger] lowered[j],
                    query,
                ) by {
                    assert(lowered[j] == lowered[i]);
                }
                lemma_matching_excludes(commands, lowered, query, commands[i]);
            }
        }
        assert forall|i: int, p: Seq<char>, t: Seq<char>|
            #![trigger lowered[i], p + query + t]
            0 <= i < commands.len() && lowered[i] == p + query + t implies m.contains(commands[i]) by {
            assert(holds_part(lowered[i], query));
        }
    }
}

/// Law: what `Palette::filter` keeps: a command name is kept exactly when
/// its lower-cased form contains the lower-cased query anywhere.
pub proof fn lemma_palette_keeps_substring_matches(names: Seq<Seq<char>>, query: Seq<char>)
    ensures
        forall|i: int|
            0 <= i < names.len() ==> (matching(names, lowered_all(names), lowercase(query)).contains(
                #[trigger] names[i],
            ) <==> holds_part(lowercase(names[i]), lowercase(query))),
{
    let l = lowered_all(names);
    assert forall|i: int, j: int|
        0 <= i < names.len() && 0 <= j < names.len() && #[trigger] names[i] == #[trigger] names[j]
            implies l[i] == l[j] by {}
    lemma_matching_is_substring_filter(names, l, lowercase(query));
    assert forall|i: int| 0 <= i < names.len() implies (matching(names, l, lowercase(query)).contains(
        #[trigger] names[i],
    ) <==> holds_part(lowercase(names[i]), lowercase(query))) by {
        assert(l[i] == lowercase(names[i]));
    }
}

} // verus!
