//! One section of the arrangement: its bar span and phases, its dynamics ramps, drum and note
//! lanes, chord override, per-section knobs and FX selection.
use vstd::prelude::*;
use crate::text::{chars_of, eq_lit};
use crate::numbers::{NumLit, is_float_lit, push_char, string_of};
use crate::pattern::{Inst, Lane, LaneV};
use crate::notes::{Chord, NoteLane, NoteLaneV};

verus! {

// ---- ramps ---------------------------------------------------------------------------------------

/// A per-section value that ramps linearly `a → b` across the section (`a == b` = constant).
pub struct Ramp {
    pub a: NumLit,
    pub b: NumLit,
}

impl View for Ramp {
    type V = (Seq<char>, Seq<char>);

    open spec fn view(&self) -> (Seq<char>, Seq<char>) {
        (self.a@, self.b@)
    }
}

impl Ramp {
    pub open spec fn wf(&self) -> bool {
        self.a.wf() && self.b.wf()
    }

    pub fn new(a: NumLit, b: NumLit) -> (r: Ramp)
        ensures
            r@ == (a@, b@),
    {
        Ramp { a, b }
    }

    /// A constant: the same value at both ends.
    pub fn c(v: NumLit) -> (r: Ramp)
        ensures
            r@ == (v@, v@),
    {
        let b = v.clone_lit();
        Ramp { a: v, b }
    }
}

pub proof fn lemma_simple_decimal(s: Seq<char>, p: int)
    requires
        0 < p < s.len() - 1,
        s[p] == '.',
        forall|i: int| 0 <= i < s.len() && i != p ==> crate::text::is_digit(#[trigger] s[i]),
    ensures
        is_float_lit(s),
{
    assert(s.len() > 0 && !(s[0] == '+' || s[0] == '-'));
    crate::numbers::lemma_digit_run(s, 0, p);
    assert(s.skip(0) =~= s);
    let rest = s.skip(p);
    assert(rest[0] == '.');
    assert(rest.drop_first() =~= s.skip(p + 1));
    crate::numbers::lemma_digit_run(s, p + 1, s.len() as int);
    assert(rest.skip(1 + (s.len() - p - 1)).len() == 0);
}

/// The literal `0.d` or `0.dd` (a dynamics default).
fn point_lit(d1: char, d2: Option<char>) -> (r: NumLit)
    requires
        crate::text::is_digit(d1),
        d2 matches Some(c) ==> crate::text::is_digit(c),
    ensures
        r@ == (match d2 {
            Some(c) => seq!['0', '.', d1, c],
            None => seq!['0', '.', d1],
        }),
        r.wf(),
{
    let mut v: Vec<char> = Vec::new();
    v.push('0');
    v.push('.');
    v.push(d1);
    match d2 {
        Some(c) => {
            v.push(c);
            assert(v@ =~= seq!['0', '.', d1, c]);
        },
        None => {
            assert(v@ =~= seq!['0', '.', d1]);
        },
    }
    proof {
        lemma_simple_decimal(v@, 1);
    }
    NumLit::from_chars(v.as_slice())
}

pub open spec fn lit_0_85() -> Seq<char> {
    seq!['0', '.', '8', '5']
}

pub open spec fn lit_0_5() -> Seq<char> {
    seq!['0', '.', '5']
}

pub open spec fn lit_0_6() -> Seq<char> {
    seq!['0', '.', '6']
}

// ---- knobs ---------------------------------------------------------------------------------------

/// Strict lexicographic order of keys by code point (the byte order of their UTF-8).
pub open spec fn key_lt(a: Seq<char>, b: Seq<char>) -> bool
    decreases a.len(),
{
    if a.len() == 0 {
        b.len() > 0
    } else if b.len() == 0 {
        false
    } else if a[0] != b[0] {
        (a[0] as u32) < (b[0] as u32)
    } else {
        key_lt(a.drop_first(), b.drop_first())
    }
}

/// `key = value` knobs, kept in key order.
pub open spec fn knobs_insert(ps: Seq<(Seq<char>, Seq<char>)>, k: Seq<char>, v: Seq<char>) -> Seq<
    (Seq<char>, Seq<char>),
>
    decreases ps.len(),
{
    if ps.len() == 0 {
        seq![(k, v)]
    } else if ps[0].0 == k {
        seq![(k, v)] + ps.drop_first()
    } else if key_lt(k, ps[0].0) {
        seq![(k, v)] + ps
    } else {
        seq![ps[0]] + knobs_insert(ps.drop_first(), k, v)
    }
}

/// The value of knob `k`, if set.
pub open spec fn knobs_get(ps: Seq<(Seq<char>, Seq<char>)>, k: Seq<char>) -> Option<Seq<char>>
    decreases ps.len(),
{
    if ps.len() == 0 {
        None
    } else if ps[0].0 == k {
        Some(ps[0].1)
    } else {
        knobs_get(ps.drop_first(), k)
    }
}

/// Setting a knob: reading it back gives the value set, and every other knob keeps its value.
#[verifier::spinoff_prover]
pub proof fn lemma_knobs_read_after_set(
    ps: Seq<(Seq<char>, Seq<char>)>,
    k: Seq<char>,
    v: Seq<char>,
    other: Seq<char>,
)
    ensures
        knobs_get(knobs_insert(ps, k, v), k) == Some(v),
        other != k ==> knobs_get(knobs_insert(ps, k, v), other) == knobs_get(ps, other),
    decreases ps.len(),
{
    if ps.len() == 0 {
        assert(knobs_insert(ps, k, v).drop_first() =~= Seq::<(Seq<char>, Seq<char>)>::empty());
    } else if ps[0].0 == k {
        assert((seq![(k, v)] + ps.drop_first()).drop_first() =~= ps.drop_first());
    } else if key_lt(k, ps[0].0) {
        assert((seq![(k, v)] + ps).drop_first() =~= ps);
    } else {
        lemma_knobs_read_after_set(ps.drop_first(), k, v, other);
        assert((seq![ps[0]] + knobs_insert(ps.drop_first(), k, v)).drop_first() =~= knobs_insert(
            ps.drop_first(),
            k,
            v,
        ));
    }
}

/// Mix/fx knobs (`set key=value`): the synth reads these with its own defaults.
pub struct Params {
    pub entries: Vec<(String, NumLit)>,
}

impl View for Params {
    type V = Seq<(Seq<char>, Seq<char>)>;

    open spec fn view(&self) -> Seq<(Seq<char>, Seq<char>)> {
        self.entries@.map_values(|e: (String, NumLit)| (e.0@, e.1@))
    }
}

pub proof fn lemma_knobs_insert_split(ps: Seq<(Seq<char>, Seq<char>)>, k: Seq<char>, v: Seq<char>, i: int)
    requires
        0 <= i <= ps.len(),
        forall|j: int| 0 <= j < i ==> (#[trigger] ps[j]).0 != k && !key_lt(k, ps[j].0),
        i == ps.len() || ps[i].0 == k || key_lt(k, ps[i].0),
    ensures
        knobs_insert(ps, k, v) == (if i < ps.len() && ps[i].0 == k {
            ps.take(i) + seq![(k, v)] + ps.skip(i + 1)
        } else {
            ps.take(i) + seq![(k, v)] + ps.skip(i)
        }),
    decreases i,
{
    if i == 0 {
        assert(ps.take(0) =~= Seq::<(Seq<char>, Seq<char>)>::empty());
        if ps.len() > 0 && ps[0].0 == k {
            assert(ps.skip(1) =~= ps.drop_first());
            assert(Seq::<(Seq<char>, Seq<char>)>::empty() + seq![(k, v)] + ps.skip(1) =~= seq![(k, v)] + ps.drop_first());
        } else {
            assert(ps.skip(0) =~= ps);
            assert(Seq::<(Seq<char>, Seq<char>)>::empty() + seq![(k, v)] + ps =~= seq![(k, v)] + ps);
        }
    } else {
        let t = ps.drop_first();
        assert forall|j: int| 0 <= j < i - 1 implies (#[trigger] t[j]).0 != k && !key_lt(k, t[j].0) by {
            assert(t[j] == ps[j + 1]);
        }
        lemma_knobs_insert_split(t, k, v, i - 1);
        assert(ps[0].0 != k && !key_lt(k, ps[0].0));
        if i < ps.len() && ps[i].0 == k {
            assert(seq![ps[0]] + (t.take(i - 1) + seq![(k, v)] + t.skip(i)) =~= ps.take(i) + seq![(k, v)] + ps.skip(i + 1));
        } else {
            assert(seq![ps[0]] + (t.take(i - 1) + seq![(k, v)] + t.skip(i - 1)) =~= ps.take(i) + seq![(k, v)] + ps.skip(i));
        }
    }
}

/// `a < b` in key order.
pub fn key_lt_exec(a: &[char], b: &[char]) -> (r: bool)
    ensures
        r == key_lt(a@, b@),
{
    let mut i: usize = 0;
    proof {
        assert(a@.skip(0) =~= a@);
        assert(b@.skip(0) =~= b@);
    }
    while i < a.len() && i < b.len() && a[i] == b[i]
        invariant
            i <= a@.len(),
            i <= b@.len(),
            key_lt(a@, b@) == key_lt(a@.skip(i as int), b@.skip(i as int)),
        decreases a@.len() - i,
    {
        proof {
            assert(a@.skip(i as int).drop_first() =~= a@.skip(i + 1));
            assert(b@.skip(i as int).drop_first() =~= b@.skip(i + 1));
        }
        i += 1;
    }
    if i == a.len() {
        i < b.len()
    } else if i == b.len() {
        false
    } else {
        (a[i] as u32) < (b[i] as u32)
    }
}


impl Params {
    pub fn new() -> (r: Params)
        ensures
            r@.len() == 0,
    {
        Params { entries: Vec::new() }
    }

    pub open spec fn wf(&self) -> bool {
        forall|i: int| 0 <= i < self.entries@.len() ==> (#[trigger] self.entries@[i]).1.wf()
    }

    /// Sets knob `k` to `v` (replacing an earlier value).
    pub fn insert(&mut self, k: &[char], v: NumLit)
        requires
            old(self).wf(),
            v.wf(),
        ensures
            final(self)@ == knobs_insert(old(self)@, k@, v@),
            final(self).wf(),
    {
        let ghost ps = self@;
        let mut i: usize = 0;
        let mut same = false;
        let mut stop = false;
        while !stop && i < self.entries.len()
            invariant
                ps == self@,
                i <= ps.len(),
                forall|j: int| 0 <= j < i ==> (#[trigger] ps[j]).0 != k@ && !key_lt(k@, ps[j].0),
                stop ==> i < ps.len() && (ps[i as int].0 == k@ || key_lt(k@, ps[i as int].0)),
                same ==> stop && ps[i as int].0 == k@,
                stop && !same ==> ps[i as int].0 != k@,
            decreases ps.len() - i + (if stop { 0int } else { 1int }),
        {
            let key = chars_of(self.entries[i].0.as_str());
            proof {
                assert(ps[i as int].0 == key@);
            }
            if crate::text::chars_eq(key.as_slice(), k) {
                same = true;
                stop = true;
            } else if key_lt_exec(k, key.as_slice()) {
                stop = true;
            } else {
                i += 1;
            }
        }
        proof {
            lemma_knobs_insert_split(ps, k@, v@, i as int);
        }
        let ghost vv = v@;
        let e = (string_of(k), v);
        if same {
            self.entries.set(i, e);
            assert(self@ =~= ps.take(i as int) + seq![(k@, vv)] + ps.skip(i + 1));
        } else {
            self.entries.insert(i, e);
            assert(self@ =~= ps.take(i as int) + seq![(k@, vv)] + ps.skip(i as int));
        }
        assert forall|j: int| 0 <= j < self.entries@.len() implies (#[trigger] self.entries@[j]).1.wf() by {
        }
    }

    /// The value of knob `k`, if set.
    pub fn get(&self, k: &str) -> (r: Option<&NumLit>)
        ensures
            match r {
                Some(n) => knobs_get(self@, k@) == Some(n@),
                None => knobs_get(self@, k@).is_none(),
            },
    {
        let kc = chars_of(k);
        let mut i: usize = 0;
        proof {
            assert(self@.skip(0) =~= self@);
        }
        while i < self.entries.len()
            invariant
                i <= self@.len(),
                kc@ == k@,
                knobs_get(self@, k@) == knobs_get(self@.skip(i as int), k@),
            decreases self@.len() - i,
        {
            let key = chars_of(self.entries[i].0.as_str());
            proof {
                assert(self@.skip(i as int)[0] == self@[i as int]);
                assert(self@.skip(i as int).drop_first() =~= self@.skip(i + 1));
            }
            if crate::text::chars_eq(key.as_slice(), kc.as_slice()) {
                return Some(&self.entries[i].1);
            }
            i += 1;
        }
        None
    }

    pub fn is_empty(&self) -> (r: bool)
        ensures
            r == (self@.len() == 0),
    {
        self.entries.len() == 0
    }
}

// ---- FX ------------------------------------------------------------------------------------------

/// The built-in, name-based FX/layer gating — what a section gets when it has no explicit
/// `<section>.fx:` line. Layers (`wall`/`shimmer`/`donk`/`house`/`casio`) and transition accents
/// (`riser`/`jet`/`impact`/`bang`) each fire in fixed named sections.
pub open spec fn spec_default_fx(name: Seq<char>, token: Seq<char>) -> bool {
    if token == "wall"@ {
        name == "drop"@ || name == "climax"@ || name == "outro"@
    } else if token == "shimmer"@ {
        name == "climax"@ || name == "outro"@
    } else if token == "donk"@ {
        name == "drop"@ || name == "climax"@
    } else if token == "house"@ {
        name == "drop"@ || name == "climax"@ || name == "outro"@
    } else if token == "casio"@ {
        name == "outro"@
    } else if token == "riser"@ {
        name == "build"@ || name == "drop"@ || name == "climax"@ || name == "outro"@
    } else if token == "jet"@ {
        name == "drop"@ || name == "climax"@
    } else if token == "impact"@ {
        name == "drop"@ || name == "breakdown"@ || name == "climax"@
    } else if token == "bang"@ {
        name == "outro"@
    } else {
        false
    }
}

pub fn default_fx(name: &str, token: &str) -> (r: bool)
    ensures
        r == spec_default_fx(name@, token@),
{
    let n = chars_of(name);
    let t = chars_of(token);
    let n = n.as_slice();
    let t = t.as_slice();
    if eq_lit(t, "wall") {
        eq_lit(n, "drop") || eq_lit(n, "climax") || eq_lit(n, "outro")
    } else if eq_lit(t, "shimmer") {
        eq_lit(n, "climax") || eq_lit(n, "outro")
    } else if eq_lit(t, "donk") {
        eq_lit(n, "drop") || eq_lit(n, "climax")
    } else if eq_lit(t, "house") {
        eq_lit(n, "drop") || eq_lit(n, "climax") || eq_lit(n, "outro")
    } else if eq_lit(t, "casio") {
        eq_lit(n, "outro")
    } else if eq_lit(t, "riser") {
        eq_lit(n, "build") || eq_lit(n, "drop") || eq_lit(n, "climax") || eq_lit(n, "outro")
    } else if eq_lit(t, "jet") {
        eq_lit(n, "drop") || eq_lit(n, "climax")
    } else if eq_lit(t, "impact") {
        eq_lit(n, "drop") || eq_lit(n, "breakdown") || eq_lit(n, "climax")
    } else if eq_lit(t, "bang") {
        eq_lit(n, "outro")
    } else {
        false
    }
}

// ---- sections ------------------------------------------------------------------------------------

/// One section of the arrangement: a span of `bars` divided into `phases` (bars per phase) with an
/// optional fill bar, its dynamics ramps, its four drum lanes and three note lanes.
pub struct Section {
    pub name: String,
    pub bars: u32,
    /// bars per phase; if `fill`, the final bar of the section is the fill
    pub phases: Vec<u32>,
    pub fill: bool,
    pub gain: Ramp,
    pub sub: Ramp,
    pub mids: Ramp,
    pub kick: Lane,
    pub snare: Lane,
    pub hat: Lane,
    pub stab: Lane,
    /// melody (one note per slot); empty = no lead
    pub lead: NoteLane,
    /// a second melodic line; empty = no arp
    pub arp: NoteLane,
    /// an articulated bassline; empty = chord-root sub only
    pub bass: NoteLane,
    /// per-section chord override (cycles within the section); empty = global
    pub chords: Vec<Chord>,
    /// per-section knob overrides (`<section>.set key=value`)
    pub params: Params,
    /// per-section FX/layer selection (`<section>.fx: …`); `None` = the name-based defaults
    pub fx: Option<Vec<String>>,
    /// first bar of the section in the whole score (laid out by the score)
    pub start_bar: u32,
}

#[verifier::ext_equal]
pub struct SectionV {
    pub name: Seq<char>,
    pub bars: u32,
    pub phases: Seq<u32>,
    pub fill: bool,
    pub gain: (Seq<char>, Seq<char>),
    pub sub: (Seq<char>, Seq<char>),
    pub mids: (Seq<char>, Seq<char>),
    pub kick: LaneV,
    pub snare: LaneV,
    pub hat: LaneV,
    pub stab: LaneV,
    pub lead: NoteLaneV,
    pub arp: NoteLaneV,
    pub bass: NoteLaneV,
    pub chords: Seq<Chord>,
    pub params: Seq<(Seq<char>, Seq<char>)>,
    pub fx: Option<Seq<Seq<char>>>,
    pub start_bar: u32,
}

pub open spec fn strings_view(v: Seq<String>) -> Seq<Seq<char>> {
    v.map_values(|s: String| s@)
}

pub open spec fn fx_view(fx: Option<Vec<String>>) -> Option<Seq<Seq<char>>> {
    match fx {
        Some(v) => Some(strings_view(v@)),
        None => None,
    }
}

impl View for Section {
    type V = SectionV;

    open spec fn view(&self) -> SectionV {
        SectionV {
            name: self.name@,
            bars: self.bars,
            phases: self.phases@,
            fill: self.fill,
            gain: self.gain@,
            sub: self.sub@,
            mids: self.mids@,
            kick: self.kick@,
            snare: self.snare@,
            hat: self.hat@,
            stab: self.stab@,
            lead: self.lead@,
            arp: self.arp@,
            bass: self.bass@,
            chords: self.chords@,
            params: self.params@,
            fx: fx_view(self.fx),
            start_bar: self.start_bar,
        }
    }
}

/// Sum of the first `n` entries.
pub open spec fn psum(ph: Seq<u32>, n: int) -> int
    decreases n,
{
    if n <= 0 || ph.len() == 0 {
        0
    } else if n > ph.len() {
        psum(ph, ph.len() as int)
    } else {
        psum(ph, n - 1) + ph[n - 1]
    }
}

pub proof fn lemma_psum_mono(ph: Seq<u32>, i: int, j: int)
    requires
        0 <= i <= j <= ph.len(),
    ensures
        psum(ph, i) <= psum(ph, j),
        psum(ph, i) >= 0,
    decreases j,
{
    if j > 0 {
        lemma_psum_mono(ph, if i < j {
            i
        } else {
            j - 1
        }, j - 1);
    }
}

/// Where bar `into` of a section falls among its phases, searching from phase `i`: the first
/// phase whose cumulative span passes `into`, and the bars into it; past the defined phases, the
/// last phase with the bars since its start.
pub open spec fn locate(ph: Seq<u32>, into: int, i: int) -> (int, int)
    decreases ph.len() - i,
{
    if i >= ph.len() {
        let last = if ph.len() > 0 {
            ph.len() - 1
        } else {
            0
        };
        let off = into - psum(ph, last);
        (last, if off > 0 {
            off
        } else {
            0
        })
    } else if into < psum(ph, i + 1) {
        (i, into - psum(ph, i))
    } else {
        locate(ph, into, i + 1)
    }
}

/// Whether bar `into` of a section is its fill bar: the section has one, and `into` is its trailing
/// bar, past its phase spans.
pub open spec fn is_fill_bar(s: SectionV, into: u32) -> bool {
    s.fill && into >= psum(s.phases, s.phases.len() as int) && into as int == s.bars as int - 1
}

/// The phase index (as the `u8` it is carried in) and bar offset of bar `into` of a section; the
/// trailing fill bar is `(255, 0)`, and any other bar past the phase spans repeats the last phase.
pub open spec fn spec_phase_and_offset(s: SectionV, into: u32) -> (u8, u32) {
    if is_fill_bar(s, into) {
        (255, 0)
    } else {
        let (i, off) = locate(s.phases, into as int, 0);
        ((i % 256) as u8, off as u32)
    }
}

/// Whether a section's phase spans (and fill bar) add up within `u32`.
pub open spec fn phase_total_fits(s: SectionV) -> bool {
    psum(s.phases, s.phases.len() as int) + (if s.fill {
        1int
    } else {
        0
    }) <= u32::MAX
}

/// The lane of a drum instrument.
pub open spec fn lane_of(s: SectionV, inst: Inst) -> LaneV {
    match inst {
        Inst::Kick => s.kick,
        Inst::Snare => s.snare,
        Inst::Hat => s.hat,
        Inst::Stab => s.stab,
    }
}

/// The instrument a lane name of the DSL denotes.
pub open spec fn inst_named(name: Seq<char>) -> Option<Inst> {
    if name == "kick"@ {
        Some(Inst::Kick)
    } else if name == "snare"@ {
        Some(Inst::Snare)
    } else if name == "hat"@ {
        Some(Inst::Hat)
    } else if name == "stab"@ {
        Some(Inst::Stab)
    } else {
        None
    }
}

pub fn inst_named_exec(name: &[char]) -> (r: Option<Inst>)
    ensures
        r == inst_named(name@),
{
    if eq_lit(name, "kick") {
        Some(Inst::Kick)
    } else if eq_lit(name, "snare") {
        Some(Inst::Snare)
    } else if eq_lit(name, "hat") {
        Some(Inst::Hat)
    } else if eq_lit(name, "stab") {
        Some(Inst::Stab)
    } else {
        None
    }
}

pub open spec fn spec_fx_on(s: SectionV, token: Seq<char>) -> bool {
    match s.fx {
        Some(list) => list.contains(token),
        None => spec_default_fx(s.name, token),
    }
}

/// The name-based FX gating table: a section with no `<section>.fx:` line gets `wall` and
/// `house` in `drop`, `climax` and `outro`; `shimmer` in `climax` and `outro`; `donk` and `jet`
/// in `drop` and `climax`; `casio` and `bang` in `outro`; `riser` in `build`, `drop`, `climax`
/// and `outro`; `impact` in `drop`, `breakdown` and `climax`; and no other token anywhere.
pub proof fn lemma_default_fx_table(s: SectionV, token: Seq<char>)
    requires
        s.fx is None,
    ensures
        spec_fx_on(s, "wall"@) <==> (s.name == "drop"@ || s.name == "climax"@ || s.name == "outro"@),
        spec_fx_on(s, "shimmer"@) <==> (s.name == "climax"@ || s.name == "outro"@),
        spec_fx_on(s, "donk"@) <==> (s.name == "drop"@ || s.name == "climax"@),
        spec_fx_on(s, "house"@) <==> (s.name == "drop"@ || s.name == "climax"@ || s.name
            == "outro"@),
        spec_fx_on(s, "casio"@) <==> s.name == "outro"@,
        spec_fx_on(s, "riser"@) <==> (s.name == "build"@ || s.name == "drop"@ || s.name
            == "climax"@ || s.name == "outro"@),
        spec_fx_on(s, "jet"@) <==> (s.name == "drop"@ || s.name == "climax"@),
        spec_fx_on(s, "impact"@) <==> (s.name == "drop"@ || s.name == "breakdown"@ || s.name
            == "climax"@),
        spec_fx_on(s, "bang"@) <==> s.name == "outro"@,
        token != "wall"@ && token != "shimmer"@ && token != "donk"@ && token != "house"@ && token
            != "casio"@ && token != "riser"@ && token != "jet"@ && token != "impact"@ && token
            != "bang"@ ==> !spec_fx_on(s, token),
{
    reveal_strlit("wall");
    reveal_strlit("shimmer");
    reveal_strlit("donk");
    reveal_strlit("house");
    reveal_strlit("casio");
    reveal_strlit("riser");
    reveal_strlit("jet");
    reveal_strlit("impact");
    reveal_strlit("bang");
    assert("wall"@[0] == 'w' && "shimmer"@[0] == 's' && "donk"@[0] == 'd' && "house"@[0] == 'h');
    assert("casio"@[0] == 'c' && "riser"@[0] == 'r' && "jet"@[0] == 'j' && "impact"@[0] == 'i');
    assert("bang"@[0] == 'b');
}

/// The defaults of a fresh section: dynamics `0.85` / `0.5` / `0.6`, empty lanes, no chord
/// override, no knobs, name-based FX, start bar 0.
pub open spec fn fresh_section(name: Seq<char>, bars: u32, phases: Seq<u32>, fill: bool) -> SectionV {
    SectionV {
        name,
        bars,
        phases,
        fill,
        gain: (lit_0_85(), lit_0_85()),
        sub: (lit_0_5(), lit_0_5()),
        mids: (lit_0_6(), lit_0_6()),
        kick: LaneV { phases: seq![], fill: crate::pattern::silent_bar() },
        snare: LaneV { phases: seq![], fill: crate::pattern::silent_bar() },
        hat: LaneV { phases: seq![], fill: crate::pattern::silent_bar() },
        stab: LaneV { phases: seq![], fill: crate::pattern::silent_bar() },
        lead: NoteLaneV { phases: seq![], fill: seq![] },
        arp: NoteLaneV { phases: seq![], fill: seq![] },
        bass: NoteLaneV { phases: seq![], fill: seq![] },
        chords: seq![],
        params: seq![],
        fx: None,
        start_bar: 0,
    }
}

/// Well-formedness of a section depends only on its numbers' texts.
pub proof fn lemma_section_wf_by_view(a: &Section, b: &Section)
    requires
        a@.gain == b@.gain,
        a@.sub == b@.sub,
        a@.mids == b@.mids,
        a@.params == b@.params,
        b.wf(),
    ensures
        a.wf(),
{
    assert forall|i: int| 0 <= i < a.params.entries@.len() implies (#[trigger] a.params.entries@[i]).1.wf() by {
        assert(a@.params.len() == a.params.entries@.len());
        assert(b@.params.len() == b.params.entries@.len());
        assert(a@.params[i] == b@.params[i]);
        assert(a@.params[i].1 == a.params.entries@[i].1@);
        assert(b@.params[i].1 == b.params.entries@[i].1@);
        assert(b.params.entries@[i].1.wf());
    }
}

impl Section {
    /// Every number a section holds is a literal.
    pub open spec fn wf(&self) -> bool {
        self.gain.wf() && self.sub.wf() && self.mids.wf() && self.params.wf()
    }

    pub fn empty(name: String, bars: u32, phases: Vec<u32>, fill: bool) -> (r: Section)
        ensures
            r@ == fresh_section(name@, bars, phases@, fill),
            r.wf(),
    {
        let d85 = point_lit('8', Some('5'));
        let d5 = point_lit('5', None);
        let d6 = point_lit('6', None);
        let r = Section {
            name,
            bars,
            phases,
            fill,
            gain: Ramp::c(d85),
            sub: Ramp::c(d5),
            mids: Ramp::c(d6),
            kick: Lane::empty(),
            snare: Lane::empty(),
            hat: Lane::empty(),
            stab: Lane::empty(),
            lead: NoteLane::empty(),
            arp: NoteLane::empty(),
            bass: NoteLane::empty(),
            chords: Vec::new(),
            params: Params::new(),
            fx: None,
            start_bar: 0,
        };
        proof {
            assert(r@.kick.phases =~= Seq::<Seq<bool>>::empty());
            assert(r@.snare.phases =~= Seq::<Seq<bool>>::empty());
            assert(r@.hat.phases =~= Seq::<Seq<bool>>::empty());
            assert(r@.stab.phases =~= Seq::<Seq<bool>>::empty());
            assert(r@.lead.phases =~= seq![]);
            assert(r@.arp.phases =~= seq![]);
            assert(r@.bass.phases =~= seq![]);
            assert(r@.lead.fill =~= seq![]);
            assert(r@.arp.fill =~= seq![]);
            assert(r@.bass.fill =~= seq![]);
            assert(r@.params =~= seq![]);
            assert(r@ =~= fresh_section(name@, bars, phases@, fill));
        }
        r
    }

    /// Whether this section gets the FX/layer `token`: an explicit `<section>.fx:` list is
    /// authoritative; otherwise the built-in name-based default fires.
    pub fn fx_on(&self, token: &str) -> (r: bool)
        ensures
            r == spec_fx_on(self@, token@),
    {
        match &self.fx {
            Some(list) => {
                assert(self@.fx == Some(strings_view(list@)));
                let t = String::from_str(token);
                let mut i: usize = 0;
                while i < list.len()
                    invariant
                        i <= list@.len(),
                        t@ == token@,
                        self@.fx == Some(strings_view(list@)),
                        forall|k: int| 0 <= k < i ==> list@[k]@ != token@,
                    decreases list@.len() - i,
                {
                    let same = list[i] == t;
                    if same {
                        proof {
                            assert(list@[i as int]@ == token@);
                            let lv = strings_view(list@);
                            assert(lv[i as int] == token@);
                            assert(lv.contains(token@));
                            assert(self@.fx == Some(lv));
                            assert(spec_fx_on(self@, token@));
                        }
                        return true;
                    }
                    i += 1;
                }
                proof {
                    let lv = strings_view(list@);
                    assert forall|k: int| 0 <= k < lv.len() implies lv[k] != token@ by {
                        assert(lv[k] == list@[k]@);
                    }
                }
                false
            },
            None => default_fx(self.name.as_str(), token),
        }
    }

    pub fn lane(&self, inst: Inst) -> (r: &Lane)
        ensures
            r@ == lane_of(self@, inst),
    {
        match inst {
            Inst::Kick => &self.kick,
            Inst::Snare => &self.snare,
            Inst::Hat => &self.hat,
            Inst::Stab => &self.stab,
        }
    }

    /// Sum of the phase spans.
    pub fn phase_total(&self) -> (r: u128)
        ensures
            r == psum(self.phases@, self.phases@.len() as int),
    {
        let mut acc: u128 = 0;
        let mut i: usize = 0;
        while i < self.phases.len()
            invariant
                i <= self.phases@.len(),
                acc == psum(self.phases@, i as int),
                acc <= i * 0x1_0000_0000,
            decreases self.phases@.len() - i,
        {
            acc = acc + self.phases[i] as u128;
            i += 1;
        }
        acc
    }

    /// Whether the phase spans (and fill bar) add up within `u32`.
    pub fn phase_total_fits(&self) -> (r: bool)
        ensures
            r == phase_total_fits(self@),
    {
        let t = self.phase_total();
        t <= 0xffff_ffff && t + (if self.fill { 1u128 } else { 0u128 }) <= 0xffff_ffff
    }

    /// Whether locating bar `into` among the phases stays within `u32`.
    fn offset_fits_at(&self, into: u32) -> (r: bool)
        ensures
            r == offset_fits(self@, into),
    {
        if self.fill {
            return self.phase_total_fits();
        }
        let ghost ph = self.phases@;
        let n = self.phases.len();
        let mut acc: u128 = 0;
        let mut i: usize = 0;
        while i < n
            invariant
                n == ph.len(),
                ph == self.phases@,
                !self.fill,
                i <= n,
                acc == psum(ph, i as int),
                acc <= i * 0x1_0000_0000,
                forall|k: int|
                    0 <= k < i && psum(ph, k) <= into ==> #[trigger] psum(ph, k + 1) <= u32::MAX,
            decreases n - i,
        {
            let next = acc + self.phases[i] as u128;
            if acc <= into as u128 && next > 0xffff_ffff {
                proof {
                    assert(psum(ph, i + 1) == psum(ph, i as int) + ph[i as int]);
                    assert(!(psum(ph, i as int) <= into ==> psum(ph, i + 1) <= u32::MAX));
                    assert(self@.phases == ph && !self@.fill);
                    assert(!offset_fits(self@, into));
                }
                return false;
            }
            acc = next;
            i += 1;
        }
        true
    }

    /// Whether every bar of the section can be located among its phases within `u32`.
    pub fn fits_everywhere(&self) -> (r: bool)
        ensures
            r == section_fits(self@),
    {
        if self.bars == 0 {
            return true;
        }
        let last = self.bars - 1;
        let r = self.offset_fits_at(last);
        proof {
            let x = self@;
            if r {
                assert forall|into: u32| into < x.bars implies #[trigger] offset_fits(x, into) by {
                    if !x.fill {
                        assert forall|i: int|
                            0 <= i < x.phases.len() && psum(x.phases, i) <= into implies #[trigger] psum(
                            x.phases,
                            i + 1,
                        ) <= u32::MAX by {
                            assert(psum(x.phases, i) <= last);
                        }
                    }
                }
            } else {
                assert(!offset_fits(x, last));
            }
        }
        r
    }

    /// Which phase a bar `into` this section is in: the trailing bar is the fill (255) when the
    /// section has one; otherwise the phase whose cumulative bar-span contains `into`.
    pub fn phase_at(&self, into: u32) -> (r: u8)
        requires
            offset_fits(self@, into),
        ensures
            r == spec_phase_and_offset(self@, into).0,
    {
        self.phase_and_offset(into).0
    }

    /// The phase index and how many bars into that phase `into` is; the trailing fill bar is
    /// `(255, 0)`, and any other bar past the phase spans repeats the last phase.
    pub fn phase_and_offset(&self, into: u32) -> (r: (u8, u32))
        requires
            offset_fits(self@, into),
        ensures
            r == spec_phase_and_offset(self@, into),
            !is_fill_bar(self@, into) ==> {
                let (i, off) = locate(self.phases@, into as int, 0);
                &&& 0 <= i
                &&& self.phases@.len() > 0 ==> i < self.phases@.len()
                &&& into < psum(self.phases@, self.phases@.len() as int) ==> psum(self.phases@, i)
                    + off == into && off < self.phases@[i]
            },
    {
        let ghost ph = self.phases@;
        let n = self.phases.len();
        proof {
            lemma_psum_mono(ph, 0, n as int);
        }
        if self.fill {
            let total = self.phase_total();
            if into as u128 >= total && self.bars > 0 && into == self.bars - 1 {
                return (255, 0);
            }
        }
        let mut acc: u64 = 0;
        let mut i: usize = 0;
        while i < n
            invariant
                n == ph.len(),
                ph == self.phases@,
                i <= n,
                acc == psum(ph, i as int),
                offset_fits(self@, into),
                locate(ph, into as int, 0) == locate(ph, into as int, i as int),
                into >= psum(ph, i as int),
            decreases n - i,
        {
            proof {
                lemma_psum_mono(ph, i + 1, n as int);
                lemma_psum_mono(ph, 0, i as int);
            }
            let p = self.phases[i];
            if (into as u64) < acc + p as u64 {
                return ((i % 256) as u8, (into as u64 - acc) as u32);
            }
            acc += p as u64;
            i += 1;
        }
        let last: usize = if n > 0 {
            n - 1
        } else {
            0
        };
        let mut before: u64 = 0;
        let mut j: usize = 0;
        while j < last
            invariant
                last <= n,
                n == ph.len(),
                ph == self.phases@,
                j <= last,
                before == psum(ph, j as int),
                psum(ph, n as int) <= into,
            decreases last - j,
        {
            proof {
                lemma_psum_mono(ph, j + 1, n as int);
            }
            before += self.phases[j] as u64;
            j += 1;
        }
        let off = if into as u64 > before {
            (into as u64 - before) as u32
        } else {
            0
        };
        ((last % 256) as u8, off)
    }
}

/// Locating bar `into` among a section's phases stays within `u32`: a section with a fill bar has
/// all its spans (and the fill) within `u32`; otherwise every cumulative span reached on the way
/// to `into` is.
pub open spec fn offset_fits(s: SectionV, into: u32) -> bool {
    if s.fill {
        phase_total_fits(s)
    } else {
        forall|i: int|
            0 <= i < s.phases.len() && psum(s.phases, i) <= into ==> #[trigger] psum(s.phases, i + 1)
                <= u32::MAX
    }
}

/// Every bar of a section can be located among its phases within `u32`.
pub open spec fn section_fits(x: SectionV) -> bool {
    forall|into: u32| into < x.bars ==> #[trigger] offset_fits(x, into)
}

/// Spans that fit `u32` as a whole fit wherever a bar is located.
pub proof fn lemma_offset_fits(s: SectionV, into: u32)
    requires
        phase_total_fits(s),
    ensures
        offset_fits(s, into),
{
    assert forall|i: int| 0 <= i < s.phases.len() && psum(s.phases, i) <= into implies #[trigger] psum(
        s.phases,
        i + 1,
    ) <= u32::MAX by {
        lemma_psum_mono(s.phases, i + 1, s.phases.len() as int);
    }
}

} // verus!
