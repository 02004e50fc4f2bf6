//! A whole score: tempo, the global chord progression, the ordered sections and the mix knobs —
//! and the bar/slot timeline read from it: which section a bar is in, which 16th-note slots a drum
//! fires on, which notes sound, which chord is active. Times are counted in bars and slots (16 per
//! bar); their length in seconds follows from the tempo.
use vstd::prelude::*;
use crate::numbers::NumLit;
use crate::pattern::{Inst, lane_at};
use crate::notes::{Chord, NoteLane, NoteLaneV, note_lane_bar};
use crate::section::{
    lemma_section_wf_by_view,
    Params, Section, SectionV, lane_of, phase_total_fits, offset_fits, section_fits, spec_fx_on, spec_phase_and_offset,
    knobs_get,
};

verus! {

/// Steps per bar (16th notes).
pub const SLOTS_PER_BAR: u64 = 16;

/// A whole score: tempo + chord progression + an ordered list of sections (which carry their own
/// patterns + dynamics) + the global mix knobs.
pub struct Score {
    pub bpm: NumLit,
    /// per-bar chord progression (cycles); drives bass + stab
    pub chords: Vec<Chord>,
    pub sections: Vec<Section>,
    /// length in bars (laid out by `Score::new`)
    pub total_bars: u32,
    /// Free-form mix/fx knobs from `set <key>=<value>` lines.
    pub params: Params,
}

#[verifier::ext_equal]
pub struct ScoreV {
    pub bpm: Seq<char>,
    pub chords: Seq<Chord>,
    pub sections: Seq<SectionV>,
    pub total_bars: u32,
    pub params: Seq<(Seq<char>, Seq<char>)>,
}

pub open spec fn sections_view(s: Seq<Section>) -> Seq<SectionV> {
    s.map_values(|x: Section| x@)
}

impl View for Score {
    type V = ScoreV;

    open spec fn view(&self) -> ScoreV {
        ScoreV {
            bpm: self.bpm@,
            chords: self.chords@,
            sections: sections_view(self.sections@),
            total_bars: self.total_bars,
            params: self.params@,
        }
    }
}

/// A section placed at bar `start`.
pub open spec fn placed_at(s: SectionV, start: int) -> SectionV {
    SectionV { start_bar: start as u32, ..s }
}

/// Bars of the sections before section `i`.
pub open spec fn bars_before(secs: Seq<SectionV>, i: int) -> int
    decreases i,
{
    if i <= 0 {
        0
    } else {
        bars_before(secs, i - 1) + secs[i - 1].bars
    }
}

/// The sections laid end to end from bar 0: each starts where the previous one ends.
pub open spec fn laid_out(secs: Seq<SectionV>) -> bool {
    forall|i: int| 0 <= i < secs.len() ==> (#[trigger] secs[i]).start_bar == bars_before(secs, i)
}

/// A laid-out score: at least one section and one chord, section starts cumulative, total length
/// the sum of the sections.
pub open spec fn score_wf(s: ScoreV) -> bool {
    &&& s.sections.len() > 0
    &&& s.chords.len() > 0
    &&& laid_out(s.sections)
    &&& s.total_bars == bars_before(s.sections, s.sections.len() as int)
}

/// Every bar of every section can be located among its phases within `u32` (what walking the
/// timeline needs).
pub open spec fn timeline_fits(s: ScoreV) -> bool {
    forall|i: int| 0 <= i < s.sections.len() ==> section_fits(#[trigger] s.sections[i])
}

/// Locating the bar of slot `slot` within its section stays within `u32`.
pub open spec fn slot_fits(s: ScoreV, slot: int) -> bool {
    let bar = slot / 16;
    let sec = s.sections[sec_index(s.sections, bar)];
    offset_fits(sec, (bar - sec.start_bar) as u32)
}

/// In a laid-out score whose bars all locate within `u32`, so does the bar of every slot of the
/// track.
pub proof fn lemma_slot_fits(s: ScoreV, slot: int)
    requires
        score_wf(s),
        timeline_fits(s),
        0 <= slot < s.total_bars * 16,
    ensures
        slot_fits(s, slot),
{
    let b = slot / 16;
    lemma_sec_index(s, b);
    let secs = s.sections;
    let k = sec_index(secs, b);
    let x = secs[k];
    assert(x.start_bar == bars_before(secs, k));
    if k + 1 < secs.len() {
        assert(secs[k + 1].start_bar == bars_before(secs, k + 1));
    } else {
        assert(k + 1 == secs.len());
    }
    assert(b - x.start_bar < x.bars);
    assert(section_fits(x));
    assert(offset_fits(x, (b - x.start_bar) as u32));
}

/// The section a bar falls in: scanning from the first, the last section whose start is not after
/// `b` (the scan stops at the first one that starts later).
pub open spec fn sec_index_from(secs: Seq<SectionV>, b: int, i: int, idx: int) -> int
    decreases secs.len() - i,
{
    if i >= secs.len() {
        idx
    } else if b >= secs[i].start_bar {
        sec_index_from(secs, b, i + 1, i)
    } else {
        idx
    }
}

pub open spec fn sec_index(secs: Seq<SectionV>, b: int) -> int {
    sec_index_from(secs, b, 0, 0)
}

/// Whether drum `inst` fires on slot `slot` of the score.
pub open spec fn fires(s: ScoreV, inst: Inst, slot: int) -> bool {
    let bar = slot / 16;
    let sec = s.sections[sec_index(s.sections, bar)];
    let into = bar - sec.start_bar;
    let phase = spec_phase_and_offset(sec, into as u32).0;
    lane_at(lane_of(sec, inst), phase)[slot % 16]
}

/// The three melodic lines of a section.
#[derive(Clone, Copy, PartialEq, Eq, Structural, Debug)]
pub enum Voice {
    Lead,
    Arp,
    Bass,
}

pub open spec fn voice_lane(s: SectionV, v: Voice) -> NoteLaneV {
    match v {
        Voice::Lead => s.lead,
        Voice::Arp => s.arp,
        Voice::Bass => s.bass,
    }
}

/// The note (if any) voice `v` sounds on slot `slot`.
pub open spec fn note_at(s: ScoreV, v: Voice, slot: int) -> Option<i32> {
    let bar = slot / 16;
    let sec = s.sections[sec_index(s.sections, bar)];
    let into = bar - sec.start_bar;
    note_lane_bar(voice_lane(sec, v), into as u32)[slot % 16]
}

/// The chord active in bar `b`: a section's own progression counted from its start, else the
/// global progression counted from bar 0.
pub open spec fn chord_in_bar(s: ScoreV, b: int) -> Chord {
    let sec = s.sections[sec_index(s.sections, b)];
    if sec.chords.len() > 0 {
        sec.chords[(b - sec.start_bar) % (sec.chords.len() as int)]
    } else {
        s.chords[b % (s.chords.len() as int)]
    }
}

/// The bar `b` lies in section `i` exactly as the layout places it: the lookup finds section `i`.
pub proof fn lemma_sec_index_is(s: ScoreV, b: int, i: int)
    requires
        score_wf(s),
        0 <= i < s.sections.len(),
        s.sections[i].start_bar <= b < s.sections[i].start_bar + s.sections[i].bars,
    ensures
        sec_index(s.sections, b) == i,
{
    let secs = s.sections;
    lemma_sec_index(s, b);
    let k = sec_index(secs, b);
    assert(secs[i].start_bar == bars_before(secs, i));
    assert(secs[k].start_bar == bars_before(secs, k));
    if k < i {
        lemma_bars_before_mono(secs, k + 1, i);
        assert(secs[k + 1].start_bar == bars_before(secs, k + 1));
    } else if k > i {
        lemma_bars_before_mono(secs, i + 1, k);
        assert(bars_before(secs, i + 1) == bars_before(secs, i) + secs[i].bars);
    }
}

/// The chord of a bar: in a section with its own chords, that progression counted from the
/// section's first bar (so the first bar plays its first chord); in a section without, the global
/// progression counted from bar 0.
pub proof fn lemma_chord_in_section(s: ScoreV, i: int, b: int)
    requires
        score_wf(s),
        0 <= i < s.sections.len(),
        s.sections[i].start_bar <= b < s.sections[i].start_bar + s.sections[i].bars,
    ensures
        s.sections[i].chords.len() > 0 ==> chord_in_bar(s, b) == s.sections[i].chords[(b
            - s.sections[i].start_bar) % (s.sections[i].chords.len() as int)],
        s.sections[i].chords.len() > 0 && b == s.sections[i].start_bar ==> chord_in_bar(s, b)
            == s.sections[i].chords[0],
        s.sections[i].chords.len() == 0 ==> chord_in_bar(s, b) == s.chords[b % (
        s.chords.len() as int)],
{
    lemma_sec_index_is(s, b, i);
}

/// The note a voice sounds on a slot of a section: its `p0` phrase looped from the section's first
/// bar, whatever the drum phases and the fill bar; nothing when the voice has no `p0` phrase.
pub proof fn lemma_note_in_section(s: ScoreV, v: Voice, i: int, slot: int)
    requires
        score_wf(s),
        0 <= i < s.sections.len(),
        slot >= 0,
        s.sections[i].start_bar <= slot / 16 < s.sections[i].start_bar + s.sections[i].bars,
    ensures
        note_at(s, v, slot) == (if voice_lane(s.sections[i], v).phases.len() > 0
            && voice_lane(s.sections[i], v).phases[0].len() > 0 {
            voice_lane(s.sections[i], v).phases[0][(slot / 16 - s.sections[i].start_bar) % (
            voice_lane(s.sections[i], v).phases[0].len() as int)][slot % 16]
        } else {
            None
        }),
{
    lemma_sec_index_is(s, slot / 16, i);
}

/// Strictly increasing.
pub open spec fn increasing(v: Seq<u64>) -> bool {
    forall|i: int, j: int| 0 <= i < j < v.len() ==> v[i] < v[j]
}

pub proof fn lemma_bars_before_mono(secs: Seq<SectionV>, i: int, j: int)
    requires
        0 <= i <= j <= secs.len(),
    ensures
        0 <= bars_before(secs, i) <= bars_before(secs, j),
    decreases j,
{
    if j > 0 {
        lemma_bars_before_mono(secs, if i < j {
            i
        } else {
            j - 1
        }, j - 1);
    }
}

/// Section starts in a laid-out score begin at 0 and never decrease.
pub proof fn lemma_starts_monotonic(s: ScoreV, i: int, j: int)
    requires
        score_wf(s),
        0 <= i <= j < s.sections.len(),
    ensures
        s.sections[0].start_bar == 0,
        s.sections[i].start_bar <= s.sections[j].start_bar,
{
    assert(s.sections[0].start_bar == bars_before(s.sections, 0));
    assert(s.sections[i].start_bar == bars_before(s.sections, i));
    assert(s.sections[j].start_bar == bars_before(s.sections, j));
    lemma_bars_before_mono(s.sections, i, j);
}

/// The scan lands on a section that starts at or before `b`, and the next section (if any) starts
/// after `b`.
pub proof fn lemma_sec_index(s: ScoreV, b: int)
    requires
        score_wf(s),
        b >= 0,
    ensures
        0 <= sec_index(s.sections, b) < s.sections.len(),
        s.sections[sec_index(s.sections, b)].start_bar <= b,
        sec_index(s.sections, b) + 1 < s.sections.len() ==> b < s.sections[sec_index(s.sections, b)
            + 1].start_bar,
{
    let secs = s.sections;
    assert(secs[0].start_bar == bars_before(secs, 0));
    lemma_sec_index_from(s, b, 0, 0);
}

proof fn lemma_sec_index_from(s: ScoreV, b: int, i: int, idx: int)
    requires
        score_wf(s),
        b >= 0,
        0 <= idx < s.sections.len(),
        s.sections[idx].start_bar <= b,
        i == 0 ==> idx == 0,
        i > 0 ==> idx == i - 1,
        0 <= i <= s.sections.len(),
    ensures
        0 <= sec_index_from(s.sections, b, i, idx) < s.sections.len(),
        s.sections[sec_index_from(s.sections, b, i, idx)].start_bar <= b,
        sec_index_from(s.sections, b, i, idx) + 1 < s.sections.len() ==> b < s.sections[
            sec_index_from(s.sections, b, i, idx) + 1].start_bar,
    decreases s.sections.len() - i,
{
    let secs = s.sections;
    if i < secs.len() {
        if b >= secs[i].start_bar {
            lemma_sec_index_from(s, b, i + 1, i);
        } else {
            if i == 0 {
                assert(secs[0].start_bar == bars_before(secs, 0));
            }
        }
    }
}

impl Score {
    pub open spec fn wf(&self) -> bool {
        &&& score_wf(self@)
        &&& self.bpm.wf()
        &&& self.params.wf()
        &&& forall|i: int| 0 <= i < self.sections@.len() ==> (#[trigger] self.sections@[i]).wf()
    }

    /// Lay out the sections (cumulative `start_bar`, total length) — the single place section
    /// timing is derived. A score with no chords gets a single A-minor (root `A3`).
    pub fn new(bpm: NumLit, chords: Vec<Chord>, sections: Vec<Section>, params: Params) -> (r: Score)
        requires
            bars_before(sections_view(sections@), sections@.len() as int) <= u32::MAX,
            sections@.len() > 0,
            forall|i: int| 0 <= i < sections@.len() ==> (#[trigger] sections@[i]).wf(),
        ensures
            r.bpm == bpm,
            r.params == params,
            forall|i: int| 0 <= i < r.sections@.len() ==> (#[trigger] r.sections@[i]).wf(),
            r@.bpm == bpm@,
            r@.chords == (if chords@.len() == 0 {
                seq![Chord { root: 57, minor: true }]
            } else {
                chords@
            }),
            r@.params == params@,
            r@.sections.len() == sections@.len(),
            forall|i: int|
                0 <= i < sections@.len() ==> (#[trigger] r@.sections[i]) == placed_at(
                    sections@[i]@,
                    bars_before(sections_view(sections@), i),
                ),
            score_wf(r@),
    {
        let mut sections = sections;
        let ghost orig = sections_view(sections@);
        let n = sections.len();
        let mut bar: u32 = 0;
        let mut i: usize = 0;
        while i < n
            invariant
                n == sections@.len() == orig.len(),
                i <= n,
                bars_before(orig, n as int) <= u32::MAX,
                bar == bars_before(orig, i as int),
                forall|k: int| 0 <= k < n ==> (#[trigger] sections@[k]).wf(),
                forall|k: int|
                    0 <= k < n ==> (#[trigger] sections@[k])@ == (if k < i {
                        placed_at(orig[k], bars_before(orig, k))
                    } else {
                        orig[k]
                    }),
            decreases n - i,
        {
            proof {
                lemma_bars_before_mono(orig, i + 1, n as int);
                assert(sections@[i as int]@.bars == orig[i as int].bars);
            }
            let ghost before = sections@;
            sections[i].start_bar = bar;
            proof {
                assert forall|k: int| 0 <= k < n implies (#[trigger] sections@[k]).wf() by {
                    if k == i {
                        crate::section::lemma_section_wf_by_view(&sections@[k], &before[k]);
                    } else {
                        assert(sections@[k] == before[k]);
                    }
                }
            }
            bar = bar + sections[i].bars;
            i += 1;
        }
        let chords = if chords.len() == 0 {
            let mut c = Vec::new();
            c.push(Chord { root: 57, minor: true });
            c
        } else {
            chords
        };
        let r = Score { bpm, chords, sections, total_bars: bar, params };
        proof {
            let rs = r@.sections;
            assert(rs.len() == orig.len());
            assert forall|k: int| 0 <= k <= n implies bars_before(rs, k) == bars_before(orig, k) by {
                lemma_bars_before_same(rs, orig, k);
            }
            assert forall|k: int| 0 <= k < rs.len() implies (#[trigger] rs[k]).start_bar
                == bars_before(rs, k) by {
                lemma_bars_before_same(rs, orig, k);
                lemma_bars_before_mono(orig, k, n as int);
            }
            if chords@.len() == 0 {
                assert(r@.chords =~= seq![Chord { root: 57, minor: true }]);
            }
        }
        r
    }

    /// Length of the score in bars.
    pub fn total_bars(&self) -> (r: u32)
        ensures
            r == self@.total_bars,
    {
        self.total_bars
    }

    /// A global mix/fx knob (`set <key>=<value>` in the score), if set.
    pub fn param(&self, key: &str) -> (r: Option<&NumLit>)
        ensures
            match r {
                Some(n) => knobs_get(self@.params, key@) == Some(n@),
                None => knobs_get(self@.params, key@).is_none(),
            },
    {
        self.params.get(key)
    }

    /// A knob honouring a per-section override: section `idx`'s own `<section>.set` value if it
    /// has one, else the global knob, else nothing.
    pub fn param_in(&self, idx: usize, key: &str) -> (r: Option<&NumLit>)
        requires
            idx < self@.sections.len(),
        ensures
            ({
                let local = knobs_get(self@.sections[idx as int].params, key@);
                let want = if local is Some {
                    local
                } else {
                    knobs_get(self@.params, key@)
                };
                match r {
                    Some(n) => want == Some(n@),
                    None => want.is_none(),
                }
            }),
    {
        match self.sections[idx].params.get(key) {
            Some(n) => Some(n),
            None => self.params.get(key),
        }
    }

    /// The position of the first section named `name`.
    pub fn position_of(&self, name: &str) -> (r: Option<usize>)
        ensures
            match r {
                Some(i) => i < self@.sections.len() && self@.sections[i as int].name == name@ && forall|
                    k: int,
                | 0 <= k < i ==> (#[trigger] self@.sections[k]).name != name@,
                None => forall|k: int|
                    0 <= k < self@.sections.len() ==> (#[trigger] self@.sections[k]).name != name@,
            },
    {
        let t = String::from_str(name);
        let mut i: usize = 0;
        while i < self.sections.len()
            invariant
                i <= self@.sections.len(),
                t@ == name@,
                forall|k: int| 0 <= k < i ==> (#[trigger] self@.sections[k]).name != name@,
            decreases self@.sections.len() - i,
        {
            let same = self.sections[i].name == t;
            if same {
                return Some(i);
            }
            i += 1;
        }
        None
    }

    /// Whether the section named `name` gets FX/layer `token` (see `Section::fx_on`); an unknown
    /// section → false.
    pub fn fx_on(&self, name: &str, token: &str) -> (r: bool)
        ensures
            r == exists|i: int|
                0 <= i < self@.sections.len() && (#[trigger] self@.sections[i]).name == name@ && (
                forall|k: int| 0 <= k < i ==> (#[trigger] self@.sections[k]).name != name@)
                    && spec_fx_on(self@.sections[i], token@),
    {
        match self.position_of(name) {
            Some(i) => {
                let r = self.sections[i].fx_on(token);
                proof {
                    if !r {
                        assert forall|j: int|
                            0 <= j < self@.sections.len() && (#[trigger] self@.sections[j]).name
                                == name@ && (forall|k: int|
                                0 <= k < j ==> (#[trigger] self@.sections[k]).name != name@)
                                implies !spec_fx_on(self@.sections[j], token@) by {
                            if j < i {
                            } else if j > i {
                                assert(self@.sections[i as int].name == name@);
                            }
                        }
                    }
                }
                r
            },
            None => false,
        }
    }

    /// First bar of section `idx`.
    pub fn section_start_bar(&self, idx: usize) -> (r: u32)
        requires
            idx < self@.sections.len(),
        ensures
            r == self@.sections[idx as int].start_bar,
    {
        self.sections[idx].start_bar
    }

    /// Whether every bar of every section can be located among its phases within `u32`.
    pub fn timeline_fits(&self) -> (r: bool)
        ensures
            r == timeline_fits(self@),
    {
        let mut i: usize = 0;
        while i < self.sections.len()
            invariant
                i <= self@.sections.len(),
                forall|k: int| 0 <= k < i ==> section_fits(#[trigger] self@.sections[k]),
            decreases self@.sections.len() - i,
        {
            proof {
                assert(self@.sections[i as int] == self.sections@[i as int]@);
            }
            if !self.sections[i].fits_everywhere() {
                proof {
                    assert(self@.sections[i as int] == self.sections@[i as int]@);
                    assert(!section_fits(self@.sections[i as int]));
                }
                return false;
            }
            i += 1;
        }
        true
    }

    /// The section bar `b` falls in.
    pub fn section_index_at_bar(&self, b: u32) -> (r: usize)
        requires
            score_wf(self@),
        ensures
            r == sec_index(self@.sections, b as int),
            r < self@.sections.len(),
            self@.sections[r as int].start_bar <= b,
            r + 1 < self@.sections.len() ==> b < self@.sections[r + 1].start_bar,
    {
        proof {
            lemma_sec_index(self@, b as int);
        }
        let ghost secs = self@.sections;
        let mut idx: usize = 0;
        let mut i: usize = 0;
        let mut stop = false;
        while !stop && i < self.sections.len()
            invariant
                secs == self@.sections,
                i <= secs.len(),
                idx < secs.len(),
                sec_index(secs, b as int) == (if stop {
                    idx as int
                } else {
                    sec_index_from(secs, b as int, i as int, idx as int)
                }),
            decreases secs.len() - i + (if stop {
                0int
            } else {
                1int
            }),
        {
            if b >= self.sections[i].start_bar {
                idx = i;
                i += 1;
            } else {
                stop = true;
            }
        }
        idx
    }

    /// Whether drum `inst` fires on slot `slot` (bar `slot / 16`, step `slot % 16`).
    pub fn fires_at(&self, inst: Inst, slot: u64) -> (r: bool)
        requires
            score_wf(self@),
            slot_fits(self@, slot as int),
            slot / 16 <= u32::MAX,
        ensures
            r == fires(self@, inst, slot as int),
    {
        let bar = (slot / SLOTS_PER_BAR) as u32;
        let i = self.section_index_at_bar(bar);
        let s = &self.sections[i];
        let into = bar - s.start_bar;
        proof {
            assert(self@.sections[i as int] == s@);
        }
        let g = s.lane(inst).at(s.phase_at(into));
        g[(slot % SLOTS_PER_BAR) as usize]
    }

    /// Every slot drum `inst` fires on across the whole track, in order — the synth builds a
    /// voice at each (its time is `slot ·` the slot length).
    pub fn hit_slots(&self, inst: Inst) -> (r: Vec<u64>)
        requires
            score_wf(self@),
            timeline_fits(self@),
        ensures
            increasing(r@),
            forall|i: int| 0 <= i < r@.len() ==> (#[trigger] r@[i]) < self@.total_bars * 16,
            forall|s: int|
                0 <= s < self@.total_bars * 16 ==> (fires(self@, inst, s) <==> r@.contains(
                    s as u64,
                )),
    {
        let slots: u64 = self.total_bars as u64 * SLOTS_PER_BAR;
        let mut out: Vec<u64> = Vec::new();
        let mut s: u64 = 0;
        while s < slots
            invariant
                slots == self@.total_bars * 16,
                s <= slots,
                score_wf(self@),
                timeline_fits(self@),
                increasing(out@),
                forall|i: int| 0 <= i < out@.len() ==> (#[trigger] out@[i]) < s,
                forall|t: int|
                    0 <= t < s ==> (fires(self@, inst, t) <==> out@.contains(t as u64)),
            decreases slots - s,
        {
            proof {
                lemma_slot_fits(self@, s as int);
            }
            let f = self.fires_at(inst, s);
            let ghost old_out = out@;
            if f {
                out.push(s);
            }
            proof {
                assert forall|t: int|
                    0 <= t < s + 1 implies (fires(self@, inst, t) <==> out@.contains(t as u64)) by {
                    if t < s {
                        if old_out.contains(t as u64) {
                            let k = choose|k: int| 0 <= k < old_out.len() && old_out[k] == t as u64;
                            assert(out@[k] == t as u64);
                        }
                        if out@.contains(t as u64) {
                            let k = choose|k: int| 0 <= k < out@.len() && out@[k] == t as u64;
                            if k < old_out.len() {
                                assert(old_out[k] == t as u64);
                            }
                        }
                    } else {
                        if f {
                            assert(out@[old_out.len() as int] == s);
                        } else {
                            if out@.contains(t as u64) {
                                let k = choose|k: int| 0 <= k < out@.len() && out@[k] == t as u64;
                                assert(old_out[k] < s);
                            }
                        }
                    }
                }
            }
            s += 1;
        }
        out
    }

    /// The note (if any) voice `v` sounds on slot `slot`.
    pub fn note_at_slot(&self, v: Voice, slot: u64) -> (r: Option<i32>)
        requires
            score_wf(self@),
            slot / 16 <= u32::MAX,
        ensures
            r == note_at(self@, v, slot as int),
    {
        let bar = (slot / SLOTS_PER_BAR) as u32;
        let i = self.section_index_at_bar(bar);
        let s = &self.sections[i];
        let into = bar - s.start_bar;
        proof {
            assert(self@.sections[i as int] == s@);
        }
        let lane: &NoteLane = match v {
            Voice::Lead => &s.lead,
            Voice::Arp => &s.arp,
            Voice::Bass => &s.bass,
        };
        let g = lane.bar(into);
        g[(slot % SLOTS_PER_BAR) as usize]
    }

    /// Every note of a voice as `(slot, pitch)` across the whole track, in slot order.
    pub fn note_line(&self, v: Voice) -> (r: Vec<(u64, i32)>)
        requires
            score_wf(self@),
        ensures
            forall|i: int, j: int| 0 <= i < j < r@.len() ==> r@[i].0 < r@[j].0,
            forall|i: int|
                0 <= i < r@.len() ==> (#[trigger] r@[i]).0 < self@.total_bars * 16 && note_at(
                    self@,
                    v,
                    r@[i].0 as int,
                ) == Some(r@[i].1),
            forall|s: int|
                0 <= s < self@.total_bars * 16 && (#[trigger] note_at(self@, v, s)) is Some
                    ==> exists|i: int| 0 <= i < r@.len() && (#[trigger] r@[i]).0 == s,
    {
        let slots: u64 = self.total_bars as u64 * SLOTS_PER_BAR;
        let mut out: Vec<(u64, i32)> = Vec::new();
        let mut s: u64 = 0;
        while s < slots
            invariant
                slots == self@.total_bars * 16,
                s <= slots,
                score_wf(self@),
                forall|i: int, j: int| 0 <= i < j < out@.len() ==> out@[i].0 < out@[j].0,
                forall|i: int|
                    0 <= i < out@.len() ==> (#[trigger] out@[i]).0 < s && note_at(
                        self@,
                        v,
                        out@[i].0 as int,
                    ) == Some(out@[i].1),
                forall|t: int|
                    0 <= t < s && (#[trigger] note_at(self@, v, t)) is Some ==> exists|i: int|
                        0 <= i < out@.len() && (#[trigger] out@[i]).0 == t,
            decreases slots - s,
        {
            let n = self.note_at_slot(v, s);
            let ghost old_out = out@;
            match n {
                Some(m) => {
                    out.push((s, m));
                    proof {
                        assert(out@[old_out.len() as int].0 == s);
                    }
                },
                None => {},
            }
            proof {
                assert forall|t: int|
                    0 <= t < s + 1 && (#[trigger] note_at(self@, v, t)) is Some implies exists|
                    i: int,
                | 0 <= i < out@.len() && (#[trigger] out@[i]).0 == t by {
                    if t < s {
                        let k = choose|k: int| 0 <= k < old_out.len() && (#[trigger] old_out[k]).0 == t;
                        assert(out@[k] == old_out[k]);
                    } else {
                        assert(out@[old_out.len() as int].0 == s);
                    }
                }
            }
            s += 1;
        }
        out
    }

    /// The `lead` (foreground melody) onsets.
    pub fn lead_notes(&self) -> (r: Vec<(u64, i32)>)
        requires
            score_wf(self@),
        ensures
            forall|i: int|
                0 <= i < r@.len() ==> (#[trigger] r@[i]).0 < self@.total_bars * 16 && note_at(
                    self@,
                    Voice::Lead,
                    r@[i].0 as int,
                ) == Some(r@[i].1),
            forall|i: int, j: int| 0 <= i < j < r@.len() ==> r@[i].0 < r@[j].0,
            forall|s: int|
                0 <= s < self@.total_bars * 16 && (#[trigger] note_at(self@, Voice::Lead, s)) is Some
                    ==> exists|i: int| 0 <= i < r@.len() && (#[trigger] r@[i]).0 == s,
    {
        self.note_line(Voice::Lead)
    }

    /// The `arp` (second melodic line) onsets.
    pub fn arp_notes(&self) -> (r: Vec<(u64, i32)>)
        requires
            score_wf(self@),
        ensures
            forall|i: int|
                0 <= i < r@.len() ==> (#[trigger] r@[i]).0 < self@.total_bars * 16 && note_at(
                    self@,
                    Voice::Arp,
                    r@[i].0 as int,
                ) == Some(r@[i].1),
            forall|i: int, j: int| 0 <= i < j < r@.len() ==> r@[i].0 < r@[j].0,
            forall|s: int|
                0 <= s < self@.total_bars * 16 && (#[trigger] note_at(self@, Voice::Arp, s)) is Some
                    ==> exists|i: int| 0 <= i < r@.len() && (#[trigger] r@[i]).0 == s,
    {
        self.note_line(Voice::Arp)
    }

    /// The `bass` (articulated bassline) onsets — empty unless the score writes a `bass` lane.
    pub fn bass_notes(&self) -> (r: Vec<(u64, i32)>)
        requires
            score_wf(self@),
        ensures
            forall|i: int|
                0 <= i < r@.len() ==> (#[trigger] r@[i]).0 < self@.total_bars * 16 && note_at(
                    self@,
                    Voice::Bass,
                    r@[i].0 as int,
                ) == Some(r@[i].1),
            forall|i: int, j: int| 0 <= i < j < r@.len() ==> r@[i].0 < r@[j].0,
            forall|s: int|
                0 <= s < self@.total_bars * 16 && (#[trigger] note_at(self@, Voice::Bass, s)) is Some
                    ==> exists|i: int| 0 <= i < r@.len() && (#[trigger] r@[i]).0 == s,
    {
        self.note_line(Voice::Bass)
    }

    /// The chord active in bar `b` (per-bar, cycling): a section with its own `chords:` line cycles
    /// through that progression counted from the section start, otherwise the global one applies.
    pub fn chord_at_bar(&self, b: u32) -> (r: Chord)
        requires
            score_wf(self@),
        ensures
            r == chord_in_bar(self@, b as int),
    {
        let i = self.section_index_at_bar(b);
        let s = &self.sections[i];
        proof {
            assert(self@.sections[i as int] == s@);
        }
        if s.chords.len() > 0 {
            let k = ((b - s.start_bar) as usize) % s.chords.len();
            return s.chords[k];
        }
        self.chords[(b as usize) % self.chords.len()]
    }
}

pub proof fn lemma_bars_before_same(a: Seq<SectionV>, b: Seq<SectionV>, k: int)
    requires
        a.len() == b.len(),
        0 <= k <= a.len(),
        forall|i: int| 0 <= i < a.len() ==> (#[trigger] a[i]).bars == b[i].bars,
    ensures
        bars_before(a, k) == bars_before(b, k),
    decreases k,
{
    if k > 0 {
        lemma_bars_before_same(a, b, k - 1);
    }
}

} // verus!
