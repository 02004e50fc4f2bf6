//! `@@anchor` tokens: a place in the music a visual part can lock to — the start, a section, a bar
//! or beat count, or plain seconds. The token is read here; its time in seconds is the count times
//! the bar or beat length, which the user of the library computes from the tempo.
use vstd::prelude::*;
use crate::text::{chars_of, lower, lower_char, trim, trim_bounds, trim_start_char, trim_start_char_at};
use crate::numbers::{NumLit, is_float_lit, is_float_lit_exec};
use crate::score::Score;
use crate::section::SectionV;

verus! {

/// Where an anchor token points.
pub enum Anchor {
    /// the start of the track
    Start,
    /// the start of the section at this index
    Section(usize),
    /// this many bars from the start (a literal number)
    Bars(NumLit),
    /// this many beats from the start (a literal number)
    Beats(NumLit),
    /// this many seconds from the start (a literal number)
    Seconds(NumLit),
}

/// The mathematical content of an `Anchor`.
pub enum AnchorV {
    Start,
    Section(nat),
    Bars(Seq<char>),
    Beats(Seq<char>),
    Seconds(Seq<char>),
}

impl View for Anchor {
    type V = AnchorV;

    open spec fn view(&self) -> AnchorV {
        match self {
            Anchor::Start => AnchorV::Start,
            Anchor::Section(i) => AnchorV::Section(*i as nat),
            Anchor::Bars(n) => AnchorV::Bars(n@),
            Anchor::Beats(n) => AnchorV::Beats(n@),
            Anchor::Seconds(n) => AnchorV::Seconds(n@),
        }
    }
}

/// ASCII lower case of a whole text.
pub open spec fn lowered(s: Seq<char>) -> Seq<char> {
    Seq::new(s.len(), |i: int| lower(s[i]))
}

/// The first section, from `i` on, whose lower-cased name is `s`.
pub open spec fn find_named_from(secs: Seq<SectionV>, s: Seq<char>, i: int) -> Option<int>
    decreases secs.len() - i,
{
    if i < 0 || i >= secs.len() {
        None
    } else if lowered(secs[i].name) == s {
        Some(i)
    } else {
        find_named_from(secs, s, i + 1)
    }
}

/// A count after a `bar`/`beat` prefix: any leading `:`s dropped, then a number literal.
pub open spec fn count_after(rest: Seq<char>) -> Option<Seq<char>> {
    let n = trim_start_char(rest, ':');
    if is_float_lit(n) {
        Some(n)
    } else {
        None
    }
}

/// An anchor token read against the section names: trimmed and lower-cased, then `start`, a
/// section name (compared in lower case), `bar<N>` / `bar:N`, `beat<N>` / `beat:N`, or a number of seconds; `None` when it is
/// none of them (a `bar`/`beat` prefix with no number after it is none of them either).
pub open spec fn spec_anchor(names: Seq<SectionV>, tok: Seq<char>) -> Option<AnchorV> {
    let s = lowered(trim(tok));
    if s == "start"@ {
        Some(AnchorV::Start)
    } else if find_named_from(names, s, 0) is Some {
        Some(AnchorV::Section(find_named_from(names, s, 0)->0 as nat))
    } else if s.len() >= 3 && s.take(3) == "bar"@ {
        match count_after(s.skip(3)) {
            Some(n) => Some(AnchorV::Bars(n)),
            None => None,
        }
    } else if s.len() >= 4 && s.take(4) == "beat"@ {
        match count_after(s.skip(4)) {
            Some(n) => Some(AnchorV::Beats(n)),
            None => None,
        }
    } else if is_float_lit(s) {
        Some(AnchorV::Seconds(s))
    } else {
        None
    }
}

pub open spec fn anchor_is(r: Option<Anchor>, a: Option<AnchorV>) -> bool {
    match r {
        Some(x) => a == Some(x@),
        None => a is None,
    }
}

/// The lower case of a text.
fn lowered_vec(s: &[char]) -> (r: Vec<char>)
    ensures
        r@ == lowered(s@),
{
    let mut r: Vec<char> = Vec::new();
    let mut i: usize = 0;
    while i < s.len()
        invariant
            i <= s@.len(),
            r@ == lowered(s@.take(i as int)),
        decreases s@.len() - i,
    {
        r.push(lower_char(s[i]));
        i += 1;
        assert(r@ =~= lowered(s@.take(i as int)));
    }
    assert(s@.take(s@.len() as int) =~= s@);
    r
}

/// The first section whose lower-cased name is `s`.
fn find_named(secs: &Vec<crate::section::Section>, s: &[char]) -> (r: Option<usize>)
    ensures
        match r {
            Some(i) => find_named_from(crate::score::sections_view(secs@), s@, 0) == Some(i as int),
            None => find_named_from(crate::score::sections_view(secs@), s@, 0) is None,
        },
{
    let ghost sv = crate::score::sections_view(secs@);
    let mut i: usize = 0;
    while i < secs.len()
        invariant
            sv == crate::score::sections_view(secs@),
            i <= secs@.len(),
            find_named_from(sv, s@, 0) == find_named_from(sv, s@, i as int),
        decreases secs@.len() - i,
    {
        let n = chars_of(secs[i].name.as_str());
        let l = lowered_vec(n.as_slice());
        proof {
            assert(sv[i as int].name == n@);
        }
        if crate::text::chars_eq(l.as_slice(), s) {
            return Some(i);
        }
        i += 1;
    }
    None
}

/// The chars of `s` from `from` on.
fn tail_of(s: &Vec<char>, from: usize) -> (r: Vec<char>)
    requires
        from <= s@.len(),
    ensures
        r@ == s@.skip(from as int),
{
    let mut r: Vec<char> = Vec::new();
    let mut i = from;
    while i < s.len()
        invariant
            from <= i <= s@.len(),
            r@ == s@.subrange(from as int, i as int),
        decreases s@.len() - i,
    {
        r.push(s[i]);
        i += 1;
        assert(r@ =~= s@.subrange(from as int, i as int));
    }
    assert(r@ =~= s@.skip(from as int));
    r
}

/// Whether `s` starts with the ASCII text `lit`.
fn starts_with(s: &Vec<char>, lit: &str) -> (r: bool)
    ensures
        r == (s@.len() >= lit@.len() && s@.take(lit@.len() as int) == lit@),
{
    let l = chars_of(lit);
    if s.len() < l.len() {
        return false;
    }
    let mut i: usize = 0;
    while i < l.len()
        invariant
            i <= l@.len() <= s@.len(),
            l@ == lit@,
            forall|k: int| 0 <= k < i ==> s@[k] == l@[k],
        decreases l@.len() - i,
    {
        if s[i] != l[i] {
            assert(s@.take(l@.len() as int)[i as int] != lit@[i as int]);
            return false;
        }
        i += 1;
    }
    assert(s@.take(l@.len() as int) =~= lit@);
    true
}

/// A count after a prefix, as a literal.
fn count_lit(rest: &Vec<char>) -> (r: Option<NumLit>)
    ensures
        match r {
            Some(n) => count_after(rest@) == Some(n@) && n.wf(),
            None => count_after(rest@) is None,
        },
{
    let k = trim_start_char_at(rest.as_slice(), ':');
    let n = tail_of(rest, k);
    if is_float_lit_exec(n.as_slice()) {
        Some(NumLit::from_chars(n.as_slice()))
    } else {
        None
    }
}

impl Score {
    /// Resolve an `@@anchor` token: a section name, `bar<N>`/`bar:N`, `beat<N>`/`beat:N`, `start`,
    /// or raw seconds (see `spec_anchor`).
    pub fn anchor(&self, tok: &str) -> (r: Option<Anchor>)
        ensures
            anchor_is(r, spec_anchor(self@.sections, tok@)),
            r matches Some(a) ==> match a {
                Anchor::Bars(n) => n.wf(),
                Anchor::Beats(n) => n.wf(),
                Anchor::Seconds(n) => n.wf(),
                _ => true,
            },
    {
        proof {
            reveal_strlit("bar");
            reveal_strlit("beat");
        }
        let raw = chars_of(tok);
        let (a, b) = trim_bounds(raw.as_slice());
        let mut s: Vec<char> = Vec::new();
        let mut i = a;
        while i < b
            invariant
                a <= i <= b <= raw@.len(),
                s@ == lowered(raw@.subrange(a as int, i as int)),
            decreases b - i,
        {
            s.push(lower_char(raw[i]));
            i += 1;
            assert(s@ =~= lowered(raw@.subrange(a as int, i as int)));
        }
        let ghost t = trim(tok@);
        assert(raw@.subrange(a as int, b as int) == t);
        assert(s@ == lowered(t));
        if crate::text::eq_lit(s.as_slice(), "start") {
            return Some(Anchor::Start);
        }
        match find_named(&self.sections, s.as_slice()) {
            Some(i) => {
                return Some(Anchor::Section(i));
            },
            None => {},
        }
        if starts_with(&s, "bar") {
            let rest = tail_of(&s, 3);
            return match count_lit(&rest) {
                Some(n) => Some(Anchor::Bars(n)),
                None => None,
            };
        }
        if starts_with(&s, "beat") {
            let rest = tail_of(&s, 4);
            return match count_lit(&rest) {
                Some(n) => Some(Anchor::Beats(n)),
                None => None,
            };
        }
        if is_float_lit_exec(s.as_slice()) {
            Some(Anchor::Seconds(NumLit::from_chars(s.as_slice())))
        } else {
            None
        }
    }
}

} // verus!
