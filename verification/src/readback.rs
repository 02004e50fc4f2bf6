//! What the reader gives is what the writer can give back. Every score the reader accepts has the
//! shape `writable` asks for (one-word names, sorted literal knobs, 16-step grids, literal
//! dynamics, ...), except for a few kinds of token that it takes but whose written form does not
//! read back as the same music: those are listed in `no_unwritable_tokens`.
use vstd::prelude::*;
use crate::text::{words, is_ws, split_once, run_len, non_ws_pred, not_char_pred, lemma_run_len_bound};
use crate::section::{SectionV, key_lt, knobs_insert};
use crate::section::{fresh_section, inst_named, lemma_simple_decimal, lit_0_5, lit_0_6, lit_0_85};
use crate::numbers::{is_float_lit, parse_unsigned};
use crate::pattern::{LaneV, has_hit, silent_bar, spec_parse_pattern};
use crate::notes::{NoteLaneV, Scan, bars_of, phrase_has_note, spec_parse_notes};
use crate::parse::{Draft, LineStep, SpecParse, dotted_line, find_sec, find_sec_from, keyword_line};
use crate::parse::{lane_line, lane_set, line_content, note_lane_set, read_dyn, read_knobs, read_line};
use crate::parse::{read_lines, read_phase, section_opts, filter_u32, set_phase, spec_parse_ramp};
use crate::parse::{with_drum, with_dyn, with_notes, with_section, finish, initial_draft, spec_from_str};
use crate::reload::{lane_ok, ramp_ok, writes_colon};
use crate::text::{lemma_trim_first, lemma_words_nonempty};
use crate::score::{ScoreV, bars_before, lemma_bars_before_same, placed_at};
use crate::notes::Chord;
use crate::reload::{fills_unheard, names_distinct, pitch_ok, writable, reloaded, lemma_dsl_round_trip};
use crate::score::{Voice, fires, note_at};
use crate::pattern::Inst;
use crate::dsl::spec_to_dsl;

verus! {

/// No char of `s` is `c`.
pub open spec fn lacks(s: Seq<char>, c: char) -> bool {
    forall|i: int| 0 <= i < s.len() ==> #[trigger] s[i] != c
}

/// Every word of a text is non-empty and free of whitespace, and holds no char the text lacks.
pub proof fn lemma_words_shape(s: Seq<char>, c: char)
    ensures
        forall|k: int| 0 <= k < words(s).len() ==> (#[trigger] words(s)[k]).len() > 0,
        forall|k: int, j: int|
            0 <= k < words(s).len() && 0 <= j < words(s)[k].len() ==> !is_ws(
                #[trigger] words(s)[k][j],
            ),
        lacks(s, c) ==> forall|k: int| 0 <= k < words(s).len() ==> lacks(#[trigger] words(s)[k], c),
    decreases s.len(),
{
    if s.len() > 0 {
        if is_ws(s[0]) {
            let t = s.drop_first();
            lemma_words_shape(t, c);
            assert(words(s) == words(t));
            if lacks(s, c) {
                assert forall|i: int| 0 <= i < t.len() implies #[trigger] t[i] != c by {
                    assert(t[i] == s[i + 1]);
                }
            }
        } else {
            let n = run_len(s, non_ws_pred());
            lemma_run_len_bound(s, non_ws_pred());
            assert(non_ws_pred()(s[0]));
            let w = s.take(n as int);
            let rest = s.skip(n as int);
            lemma_words_shape(rest, c);
            let ws = words(s);
            assert(ws == seq![w] + words(rest));
            assert forall|k: int, j: int| 0 <= k < ws.len() && 0 <= j < ws[k].len() implies !is_ws(
                #[trigger] ws[k][j],
            ) by {
                if k == 0 {
                    assert(non_ws_pred()(s[j]));
                } else {
                    assert(ws[k] == words(rest)[k - 1]);
                }
            }
            assert forall|k: int| 0 <= k < ws.len() implies (#[trigger] ws[k]).len() > 0 by {
                if k > 0 {
                    assert(ws[k] == words(rest)[k - 1]);
                }
            }
            if lacks(s, c) {
                assert(lacks(rest, c)) by {
                    assert forall|i: int| 0 <= i < rest.len() implies #[trigger] rest[i] != c by {
                        assert(rest[i] == s[i + n]);
                    }
                }
                assert forall|k: int| 0 <= k < ws.len() implies lacks(#[trigger] ws[k], c) by {
                    if k == 0 {
                        assert forall|i: int| 0 <= i < w.len() implies #[trigger] w[i] != c by {
                            assert(w[i] == s[i]);
                        }
                    } else {
                        assert(ws[k] == words(rest)[k - 1]);
                    }
                }
            }
        }
    }
}

/// What comes before the first `c` holds no `c`, and is the start of the text.
pub proof fn lemma_split_once_head(s: Seq<char>, c: char)
    ensures
        split_once(s, c) matches Some((a, b)) ==> lacks(a, c) && a.len() <= s.len() && (forall|
            i: int,
        | 0 <= i < a.len() ==> #[trigger] a[i] == s[i]),
{
    lemma_run_len_bound(s, not_char_pred(c));
    let n = run_len(s, not_char_pred(c));
    if n < s.len() {
        let a = s.take(n as int);
        assert forall|i: int| 0 <= i < a.len() implies #[trigger] a[i] != c by {
            assert(not_char_pred(c)(s[i]));
        }
    }
}

// ---- key order -----------------------------------------------------------------------------------

pub proof fn lemma_key_lt_irrefl(a: Seq<char>)
    ensures
        !key_lt(a, a),
    decreases a.len(),
{
    if a.len() > 0 {
        lemma_key_lt_irrefl(a.drop_first());
    }
}

pub proof fn lemma_key_lt_trans(a: Seq<char>, b: Seq<char>, c: Seq<char>)
    requires
        key_lt(a, b),
        key_lt(b, c),
    ensures
        key_lt(a, c),
    decreases a.len(),
{
    if a.len() > 0 && b.len() > 0 && c.len() > 0 && a[0] == b[0] && b[0] == c[0] {
        lemma_key_lt_trans(a.drop_first(), b.drop_first(), c.drop_first());
    }
}

/// Different chars have different code points.
pub proof fn lemma_char_codes_differ(c: char, d: char)
    requires
        c != d,
    ensures
        (c as u32) != (d as u32),
{
    assert(c as int == (c as u32) as int);
}

pub proof fn lemma_key_lt_total(a: Seq<char>, b: Seq<char>)
    requires
        a != b,
    ensures
        key_lt(a, b) || key_lt(b, a),
    decreases a.len(),
{
    if a.len() > 0 && b.len() > 0 && a[0] == b[0] {
        if a.drop_first() == b.drop_first() {
            assert(a =~= seq![a[0]] + a.drop_first());
            assert(b =~= seq![b[0]] + b.drop_first());
        }
        lemma_key_lt_total(a.drop_first(), b.drop_first());
    } else if a.len() > 0 && b.len() > 0 {
        lemma_char_codes_differ(a[0], b[0]);
    } else if a.len() == 0 && b.len() == 0 {
        assert(a =~= b);
    }
}

// ---- knobs ---------------------------------------------------------------------------------------

/// Keys in strictly increasing order.
pub open spec fn knobs_sorted(ps: Seq<(Seq<char>, Seq<char>)>) -> bool {
    forall|i: int, j: int| 0 <= i < j < ps.len() ==> key_lt(#[trigger] ps[i].0, #[trigger] ps[j].0)
}

/// A key as the reader cuts it from a token: no whitespace, no `=`.
pub open spec fn key_shape(k: Seq<char>) -> bool {
    &&& forall|i: int| 0 <= i < k.len() ==> !is_ws(#[trigger] k[i])
    &&& lacks(k, '=')
}

/// Knobs as the reader keeps them: keys cut from tokens, literal values, keys in order.
pub open spec fn knobs_shape(ps: Seq<(Seq<char>, Seq<char>)>) -> bool {
    &&& forall|i: int|
        0 <= i < ps.len() ==> key_shape((#[trigger] ps[i]).0) && crate::numbers::is_float_lit(
            ps[i].1,
        )
    &&& knobs_sorted(ps)
}

pub open spec fn keys_above(ps: Seq<(Seq<char>, Seq<char>)>, lo: Seq<char>) -> bool {
    forall|i: int| 0 <= i < ps.len() ==> key_lt(lo, (#[trigger] ps[i]).0)
}

pub proof fn lemma_knobs_insert_above(
    ps: Seq<(Seq<char>, Seq<char>)>,
    k: Seq<char>,
    v: Seq<char>,
    lo: Seq<char>,
)
    requires
        keys_above(ps, lo),
        key_lt(lo, k),
    ensures
        keys_above(knobs_insert(ps, k, v), lo),
    decreases ps.len(),
{
    let r = knobs_insert(ps, k, v);
    if ps.len() > 0 && ps[0].0 != k && !key_lt(k, ps[0].0) {
        let rest = ps.drop_first();
        assert forall|i: int| 0 <= i < rest.len() implies key_lt(lo, (#[trigger] rest[i]).0) by {
            assert(rest[i] == ps[i + 1]);
        }
        lemma_knobs_insert_above(rest, k, v, lo);
        assert forall|i: int| 0 <= i < r.len() implies key_lt(lo, (#[trigger] r[i]).0) by {
            if i > 0 {
                assert(r[i] == knobs_insert(rest, k, v)[i - 1]);
            }
        }
    } else if ps.len() > 0 && ps[0].0 == k {
        assert forall|i: int| 0 <= i < r.len() implies key_lt(lo, (#[trigger] r[i]).0) by {
            if i > 0 {
                assert(r[i] == ps[i]);
            }
        }
    } else if ps.len() > 0 {
        assert forall|i: int| 0 <= i < r.len() implies key_lt(lo, (#[trigger] r[i]).0) by {
            if i > 0 {
                assert(r[i] == ps[i - 1]);
            }
        }
    }
}

/// Setting a knob keeps the knobs in the reader's shape.
pub proof fn lemma_knobs_insert_shape(ps: Seq<(Seq<char>, Seq<char>)>, k: Seq<char>, v: Seq<char>)
    requires
        knobs_shape(ps),
        key_shape(k),
        crate::numbers::is_float_lit(v),
    ensures
        knobs_shape(knobs_insert(ps, k, v)),
    decreases ps.len(),
{
    let r = knobs_insert(ps, k, v);
    if ps.len() == 0 {
    } else if ps[0].0 == k {
        assert forall|i: int| 0 < i < r.len() implies #[trigger] r[i] == ps[i] by {}
        assert(r[0] == (k, v));
    } else if key_lt(k, ps[0].0) {
        assert forall|i: int| 0 < i < r.len() implies #[trigger] r[i] == ps[i - 1] by {}
        assert forall|i: int, j: int| 0 <= i < j < r.len() implies key_lt(
            #[trigger] r[i].0,
            #[trigger] r[j].0,
        ) by {
            if i == 0 {
                if j > 1 {
                    lemma_key_lt_trans(k, ps[0].0, ps[j - 1].0);
                }
            } else {
                assert(r[i] == ps[i - 1] && r[j] == ps[j - 1]);
            }
        }
    } else {
        let rest = ps.drop_first();
        lemma_key_lt_total(k, ps[0].0);
        assert forall|i: int| 0 <= i < rest.len() implies #[trigger] rest[i] == ps[i + 1] by {}
        assert(knobs_shape(rest));
        lemma_knobs_insert_shape(rest, k, v);
        let t = knobs_insert(rest, k, v);
        assert(keys_above(rest, ps[0].0));
        lemma_knobs_insert_above(rest, k, v, ps[0].0);
        assert(r == seq![ps[0]] + t);
        assert forall|i: int| 0 < i < r.len() implies #[trigger] r[i] == t[i - 1] by {}
        assert forall|i: int, j: int| 0 <= i < j < r.len() implies key_lt(
            #[trigger] r[i].0,
            #[trigger] r[j].0,
        ) by {
            if i == 0 {
                assert(r[j] == t[j - 1]);
            } else {
                assert(r[i] == t[i - 1] && r[j] == t[j - 1]);
            }
        }
        assert forall|i: int| 0 <= i < r.len() implies key_shape((#[trigger] r[i]).0)
            && crate::numbers::is_float_lit(r[i].1) by {
            if i > 0 {
                assert(r[i] == t[i - 1]);
            }
        }
    }
}

// ---- the shape of what the reader holds ------------------------------------------------------------

/// A name that `<section>.` lines can reach: no `.` or `:` in it.
pub open spec fn reachable_name(n: Seq<char>) -> bool {
    lacks(n, '.') && lacks(n, ':')
}

/// Words as the reader cuts them: non-empty, no whitespace.
pub open spec fn cut_words(ws: Seq<Seq<char>>) -> bool {
    &&& forall|k: int| 0 <= k < ws.len() ==> (#[trigger] ws[k]).len() > 0
    &&& forall|k: int, j: int| 0 <= k < ws.len() && 0 <= j < ws[k].len() ==> !is_ws(#[trigger] ws[k][j])
}

/// Note bars of 16 slots, at most `usize::MAX` phases.
pub open spec fn notes_shape(l: NoteLaneV) -> bool {
    &&& l.phases.len() <= usize::MAX
    &&& forall|p: int, b: int|
        0 <= p < l.phases.len() && 0 <= b < l.phases[p].len() ==> (#[trigger] l.phases[p][b]).len()
            == 16
    &&& forall|b: int| 0 <= b < l.fill.len() ==> (#[trigger] l.fill[b]).len() == 16
}

/// A section as the reader keeps it.
pub open spec fn sec_shape(x: SectionV) -> bool {
    &&& x.name.len() > 0
    &&& forall|i: int| 0 <= i < x.name.len() ==> !is_ws(#[trigger] x.name[i])
    &&& x.phases.len() > 0
    &&& knobs_shape(x.params)
    &&& x.params.len() > 0 ==> lacks(x.name, '.')
    &&& writes_colon(x) ==> reachable_name(x.name)
    &&& (x.fx matches Some(f) ==> cut_words(f))
    &&& lane_ok(x.kick)
    &&& lane_ok(x.snare)
    &&& lane_ok(x.hat)
    &&& lane_ok(x.stab)
    &&& notes_shape(x.lead)
    &&& notes_shape(x.arp)
    &&& notes_shape(x.bass)
    &&& ramp_ok(x.gain)
    &&& ramp_ok(x.sub)
    &&& ramp_ok(x.mids)
}

/// What the lines read so far have set, in the reader's shape.
pub open spec fn draft_shape(d: Draft) -> bool {
    &&& is_float_lit(d.bpm)
    &&& knobs_shape(d.params)
    &&& forall|i: int| 0 <= i < d.sections.len() ==> sec_shape(#[trigger] d.sections[i])
}

pub proof fn lemma_find_sec_from_name(secs: Seq<SectionV>, n: Seq<char>, i: int)
    ensures
        find_sec_from(secs, n, i) matches Some(j) ==> 0 <= j < secs.len() && secs[j].name == n,
    decreases secs.len() - i,
{
    if 0 <= i < secs.len() && secs[i].name != n {
        lemma_find_sec_from_name(secs, n, i + 1);
    }
}

pub proof fn lemma_with_section_shape(st: Draft, si: int, y: SectionV)
    requires
        draft_shape(st),
        0 <= si < st.sections.len(),
        sec_shape(y),
    ensures
        draft_shape(with_section(st, si, y)),
{
    let d = with_section(st, si, y);
    assert forall|i: int| 0 <= i < d.sections.len() implies sec_shape(#[trigger] d.sections[i]) by {
        if i != si {
            assert(d.sections[i] == st.sections[i]);
        }
    }
}

/// `key=value` tokens keep the draft in shape.
pub proof fn lemma_read_knobs_shape(
    st: Draft,
    ln: nat,
    target: Option<int>,
    sec: Seq<char>,
    toks: Seq<Seq<char>>,
)
    requires
        draft_shape(st),
        target matches Some(si) ==> 0 <= si < st.sections.len() && lacks(st.sections[si].name, '.'),
        forall|k: int, j: int| 0 <= k < toks.len() && 0 <= j < toks[k].len() ==> !is_ws(#[trigger] toks[k][j]),
    ensures
        read_knobs(st, ln, target, sec, toks) matches LineStep::Next(st2) ==> draft_shape(st2),
    decreases toks.len(),
{
    if toks.len() > 0 {
        let tok = toks[0];
        lemma_split_once_head(tok, '=');
        if let Some((k, v)) = split_once(tok, '=') {
            if is_float_lit(v) {
                assert forall|i: int| 0 <= i < k.len() implies !is_ws(#[trigger] k[i]) by {
                    assert(k[i] == tok[i]);
                }
                let st2 = match target {
                    Some(si) => with_section(
                        st,
                        si,
                        SectionV { params: knobs_insert(st.sections[si].params, k, v), ..st.sections[si] },
                    ),
                    None => Draft { params: knobs_insert(st.params, k, v), ..st },
                };
                match target {
                    Some(si) => {
                        let x = st.sections[si];
                        lemma_knobs_insert_shape(x.params, k, v);
                        let y = SectionV { params: knobs_insert(x.params, k, v), ..x };
                        assert(writes_colon(y) == writes_colon(x));
                        assert(sec_shape(y));
                        lemma_with_section_shape(st, si, y);
                    },
                    None => {
                        lemma_knobs_insert_shape(st.params, k, v);
                    },
                }
                let rest = toks.drop_first();
                assert forall|a: int, j: int| 0 <= a < rest.len() && 0 <= j < rest[a].len() implies !is_ws(
                    #[trigger] rest[a][j],
                ) by {
                    assert(rest[a] == toks[a + 1]);
                }
                lemma_read_knobs_shape(st2, ln, target, sec, rest);
            }
        }
    }
}

/// `name value` pairs keep the draft in shape.
pub proof fn lemma_read_dyn_shape(st: Draft, ln: nat, kw: Seq<char>, toks: Seq<Seq<char>>)
    requires
        draft_shape(st),
    ensures
        read_dyn(st, ln, kw, toks) matches LineStep::Next(st2) ==> draft_shape(st2),
    decreases toks.len(),
{
    if toks.len() >= 2 {
        let name = toks[0];
        let val = toks[1];
        lemma_find_sec_from_name(st.sections, name, 0);
        if let Some(si) = find_sec(st.sections, name) {
            if let Some(r) = spec_parse_ramp(val) {
                let x = st.sections[si];
                let y = with_dyn(x, kw, r);
                assert(writes_colon(y) == writes_colon(x));
                assert(sec_shape(y));
                lemma_with_section_shape(st, si, y);
                lemma_read_dyn_shape(with_section(st, si, y), ln, kw, toks.skip(2));
            }
        }
    }
}

pub proof fn lemma_lane_set_ok(l: LaneV, phase: Option<nat>, grid: Seq<bool>)
    requires
        lane_ok(l),
        grid.len() == 16,
        phase matches Some(p) ==> p < usize::MAX,
    ensures
        lane_ok(lane_set(l, phase, grid)),
{
    if let Some(p) = phase {
        let r = set_phase(l.phases, p, grid, silent_bar());
        assert forall|i: int| 0 <= i < r.len() implies (#[trigger] r[i]).len() == 16 by {
            if p >= l.phases.len() {
                if i < l.phases.len() {
                    assert(r[i] == l.phases[i]);
                } else if i < p {
                    assert(r[i] == silent_bar());
                }
            }
        }
    }
}

pub proof fn lemma_note_lane_set_ok(l: NoteLaneV, phase: Option<nat>, grid: Seq<Seq<Option<i32>>>)
    requires
        notes_shape(l),
        forall|b: int| 0 <= b < grid.len() ==> (#[trigger] grid[b]).len() == 16,
        phase matches Some(p) ==> p < usize::MAX,
    ensures
        notes_shape(note_lane_set(l, phase, grid)),
{
    if let Some(p) = phase {
        let r = set_phase(l.phases, p, grid, seq![]);
        assert forall|q: int, b: int| 0 <= q < r.len() && 0 <= b < r[q].len() implies (
        #[trigger] r[q][b]).len() == 16 by {
            if p < l.phases.len() {
                if q != p {
                    assert(r[q] == l.phases[q]);
                }
            } else {
                if q < l.phases.len() {
                    assert(r[q] == l.phases[q]);
                } else if q < p {
                    assert(r[q] == Seq::<Seq<Option<i32>>>::empty());
                } else {
                    assert(r[q] == grid);
                }
            }
        }
    }
}

/// Note bars read from a line have 16 slots each.
pub proof fn lemma_note_bars(pat: Seq<char>)
    ensures
        spec_parse_notes(pat) matches Scan::Read(g) ==> forall|b: int| 0 <= b < g.len() ==> (
        #[trigger] g[b]).len() == 16,
{
    if let Scan::Read(g) = spec_parse_notes(pat) {
        if let Scan::Read(slots) = crate::notes::read_slots(words(pat)) {
            assert(g == bars_of(slots));
            assert forall|b: int| 0 <= b < g.len() implies (#[trigger] g[b]).len() == 16 by {
                assert(16 * b + 16 <= slots.len());
            }
        }
    }
}

/// A `<section>.<what>: ...` line keeps the draft in shape when its section's name is reachable.
pub proof fn lemma_lane_line_shape(
    st: Draft,
    ln: nat,
    si: int,
    inst: Seq<char>,
    phase: Option<nat>,
    pat: Seq<char>,
)
    requires
        draft_shape(st),
        0 <= si < st.sections.len(),
        reachable_name(st.sections[si].name),
        phase matches Some(p) ==> p <= usize::MAX,
    ensures
        lane_line(st, ln, si, inst, phase, pat) matches LineStep::Next(st2) ==> draft_shape(st2),
{
    let x = st.sections[si];
    if let LineStep::Next(st2) = lane_line(st, ln, si, inst, phase, pat) {
        if inst == "chords"@ {
            let y = st2.sections[si];
            assert(st2 == with_section(st, si, y));
            assert(sec_shape(y));
            lemma_with_section_shape(st, si, y);
        } else if inst == "fx"@ {
            lemma_words_shape(pat, '#');
            let y = SectionV { fx: Some(words(pat)), ..x };
            assert(sec_shape(y));
            lemma_with_section_shape(st, si, y);
        } else if inst == "lead"@ || inst == "arp"@ || inst == "bass"@ {
            lemma_note_bars(pat);
            let grid = spec_parse_notes(pat)->Read_0;
            lemma_note_lane_set_ok(x.lead, phase, grid);
            lemma_note_lane_set_ok(x.arp, phase, grid);
            lemma_note_lane_set_ok(x.bass, phase, grid);
            let y = with_notes(x, inst, phase, grid);
            assert(sec_shape(y));
            lemma_with_section_shape(st, si, y);
        } else {
            let grid = spec_parse_pattern(pat)->0;
            lemma_lane_set_ok(x.kick, phase, grid);
            lemma_lane_set_ok(x.snare, phase, grid);
            lemma_lane_set_ok(x.hat, phase, grid);
            lemma_lane_set_ok(x.stab, phase, grid);
            let y = with_drum(x, inst_named(inst)->0, phase, grid);
            assert(sec_shape(y));
            lemma_with_section_shape(st, si, y);
        }
    }
}


/// A word holding `c` splits at its first `c`.
pub proof fn lemma_split_once_some(s: Seq<char>, c: char)
    requires
        s.contains(c),
    ensures
        split_once(s, c) is Some,
{
    lemma_run_len_bound(s, not_char_pred(c));
    let i = choose|i: int| 0 <= i < s.len() && s[i] == c;
    if run_len(s, not_char_pred(c)) >= s.len() {
        assert(not_char_pred(c)(s[i]));
    }
}

/// A line whose first word holds a `.` keeps the draft in shape.
pub proof fn lemma_dotted_line_shape(st: Draft, ln: nat, line: Seq<char>, ws: Seq<Seq<char>>)
    requires
        draft_shape(st),
        ws == words(line),
        ws.len() > 0,
        split_once(ws[0], '.') is Some,
    ensures
        dotted_line(st, ln, line, ws) matches LineStep::Next(st2) ==> draft_shape(st2),
{
    lemma_words_shape(line, '.');
    let first = ws[0];
    lemma_split_once_head(first, '.');
    let (sec, after) = split_once(first, '.')->0;
    if after == "set"@ {
        lemma_find_sec_from_name(st.sections, sec, 0);
        if let Some(si) = find_sec(st.sections, sec) {
            let toks = ws.drop_first();
            assert forall|a: int, j: int| 0 <= a < toks.len() && 0 <= j < toks[a].len() implies !is_ws(
                #[trigger] toks[a][j],
            ) by {
                assert(toks[a] == ws[a + 1]);
            }
            lemma_read_knobs_shape(st, ln, Some(si), sec, toks);
        }
    } else {
        lemma_split_once_head(line, ':');
        if let Some((head, pat)) = split_once(line, ':') {
            let hw = words(head);
            lemma_words_shape(head, ':');
            if hw.len() > 0 {
                let target = hw[0];
                let phase_tok = if hw.len() > 1 {
                    hw[1]
                } else {
                    seq!['p', '0']
                };
                lemma_split_once_head(target, '.');
                if let Some((sname, inst)) = split_once(target, '.') {
                    assert(lacks(target, ':'));
                    assert forall|i: int| 0 <= i < sname.len() implies #[trigger] sname[i] != ':' by {
                        assert(sname[i] == target[i]);
                    }
                    lemma_find_sec_from_name(st.sections, sname, 0);
                    if let Some(si) = find_sec(st.sections, sname) {
                        if let Some(phase) = read_phase(phase_tok) {
                            lemma_lane_line_shape(st, ln, si, inst, phase, pat);
                        }
                    }
                }
            }
        }
    }
}

/// The phase list of a section line is never empty.
pub proof fn lemma_section_opts_phases(toks: Seq<Seq<char>>, phases: Seq<u32>, fill: bool)
    requires
        phases.len() > 0,
    ensures
        section_opts(toks, phases, fill).0.len() > 0,
    decreases toks.len(),
{
    if toks.len() > 0 {
        if crate::text::eq_ic(toks[0], "fill"@) {
            lemma_section_opts_phases(toks.drop_first(), phases, true);
        } else {
            let ph = filter_u32(crate::text::split_pieces(toks[0], ','));
            lemma_section_opts_phases(toks.drop_first(), if ph.len() > 0 {
                ph
            } else {
                phases
            }, fill);
        }
    }
}

/// A fresh section is in the reader's shape.
pub proof fn lemma_fresh_shape(name: Seq<char>, bars: u32, phases: Seq<u32>, fill: bool)
    requires
        name.len() > 0,
        forall|i: int| 0 <= i < name.len() ==> !is_ws(#[trigger] name[i]),
        phases.len() > 0,
    ensures
        sec_shape(fresh_section(name, bars, phases, fill)),
{
    lemma_simple_decimal(lit_0_85(), 1);
    lemma_simple_decimal(lit_0_5(), 1);
    lemma_simple_decimal(lit_0_6(), 1);
    assert(!has_hit(silent_bar()));
    assert(!phrase_has_note(Seq::<Seq<Option<i32>>>::empty()));
    let x = fresh_section(name, bars, phases, fill);
    assert(!writes_colon(x));
}

/// A keyword line keeps the draft in shape.
pub proof fn lemma_keyword_line_shape(st: Draft, ln: nat, ws: Seq<Seq<char>>)
    requires
        draft_shape(st),
        ws.len() > 0,
        cut_words(ws),
    ensures
        keyword_line(st, ln, ws) matches LineStep::Next(st2) ==> draft_shape(st2),
{
    let kw = ws[0];
    let rest = ws.drop_first();
    assert forall|a: int, j: int| 0 <= a < rest.len() && 0 <= j < rest[a].len() implies !is_ws(
        #[trigger] rest[a][j],
    ) by {
        assert(rest[a] == ws[a + 1]);
    }
    if kw == "section"@ {
        if rest.len() >= 2 && parse_unsigned(rest[1], u32::MAX as nat) is Some {
            let bars = (parse_unsigned(rest[1], u32::MAX as nat)->0) as u32;
            lemma_section_opts_phases(rest.skip(2), seq![bars], false);
            let (phases, fill) = section_opts(rest.skip(2), seq![bars], false);
            assert(rest[0] == ws[1]);
            assert(rest[0].len() > 0);
            assert forall|i: int| 0 <= i < rest[0].len() implies !is_ws(#[trigger] rest[0][i]) by {
                assert(!is_ws(rest[0][i]));
            }
            lemma_fresh_shape(rest[0], bars, phases, fill);
            let d = Draft {
                sections: st.sections.push(fresh_section(rest[0], bars, phases, fill)),
                ..st
            };
            assert forall|i: int| 0 <= i < d.sections.len() implies sec_shape(#[trigger] d.sections[i]) by {
                if i < st.sections.len() {
                    assert(d.sections[i] == st.sections[i]);
                }
            }
        }
    } else if kw == "gain"@ || kw == "sub"@ || kw == "mids"@ {
        lemma_read_dyn_shape(st, ln, kw, rest);
    } else if kw == "set"@ {
        lemma_read_knobs_shape(st, ln, None, seq![], rest);
    }
}

/// Any one line keeps the draft in shape.
pub proof fn lemma_line_keeps_shape(st: Draft, ln: nat, raw: Seq<char>)
    requires
        draft_shape(st),
    ensures
        read_line(st, ln, raw) matches LineStep::Next(st2) ==> draft_shape(st2),
{
    reveal(read_line);
    let line = line_content(raw);
    if line.len() > 0 {
        let ws = words(line);
        lemma_trim_first(raw.take(crate::text::comment_cut(raw)));
        lemma_words_nonempty(line);
        lemma_words_shape(line, '.');
        if ws[0].contains('.') {
            lemma_split_once_some(ws[0], '.');
            lemma_dotted_line_shape(st, ln, line, ws);
        } else {
            lemma_keyword_line_shape(st, ln, ws);
        }
    }
}

/// All lines keep the draft in shape.
pub proof fn lemma_lines_keep_shape(st: Draft, ls: Seq<Seq<char>>, ln: nat)
    requires
        draft_shape(st),
    ensures
        read_lines(st, ls, ln) matches LineStep::Next(st2) ==> draft_shape(st2),
    decreases ls.len(),
{
    if ls.len() > 0 {
        lemma_line_keeps_shape(st, ln, ls[0]);
        if let LineStep::Next(st2) = read_line(st, ln, ls[0]) {
            lemma_lines_keep_shape(st2, ls.drop_first(), ln + 1);
        }
    }
}


// ---- the tokens the writer cannot give back -----------------------------------------------------

/// Every pitch of a note lane can be named so that the name reads back within `i32`.
pub open spec fn pitches_named(l: NoteLaneV) -> bool {
    &&& forall|p: int, b: int, i: int|
        0 <= p < l.phases.len() && 0 <= b < l.phases[p].len() && 0 <= i < l.phases[p][b].len()
            ==> pitch_ok(#[trigger] l.phases[p][b][i])
    &&& forall|b: int, i: int| 0 <= b < l.fill.len() && 0 <= i < l.fill[b].len() ==> pitch_ok(
        #[trigger] l.fill[b][i],
    )
}

/// A section with none of the tokens whose written form does not read back as the same music.
pub open spec fn section_tokens_writable(x: SectionV) -> bool {
    &&& x.name.len() > 0 ==> x.name[0] != '#'
    &&& pitches_named(x.lead)
    &&& pitches_named(x.arp)
    &&& pitches_named(x.bass)
}

/// A score holds none of the tokens that the reader takes but whose written form does not read
/// back as the same music: a section name used twice (the lines of the second go to the first), a
/// section name starting with `#` (which the reader takes after a non-ASCII space, while after the
/// writer's space it starts a comment), or a pitch below the lowest whose written octave reads
/// back within `i32`. (Chords, knobs and FX words read back as `lemma_dsl_round_trip` states.)
pub open spec fn no_unwritable_tokens(s: ScoreV) -> bool {
    &&& names_distinct(s.sections)
    &&& forall|i: int| 0 <= i < s.sections.len() ==> section_tokens_writable(#[trigger] s.sections[i])
}

pub proof fn lemma_bars_before_mono(secs: Seq<SectionV>, i: int, j: int)
    requires
        0 <= i <= j <= secs.len(),
    ensures
        0 <= bars_before(secs, i) <= bars_before(secs, j),
    decreases j,
{
    if j > 0 {
        lemma_bars_before_mono(secs, if i < j {
            i
        } else {
            j - 1
        }, j - 1);
    }
}

/// The score a draft in shape makes is laid out, with its texts in the reader's shape.
pub proof fn lemma_finish_shape(st: Draft)
    requires
        draft_shape(st),
    ensures
        finish(st) matches SpecParse::Parsed(s) ==> {
            &&& crate::score::score_wf(s)
            &&& is_float_lit(s.bpm)
            &&& knobs_shape(s.params)
            &&& (st.chords.len() == 0 ==> s.chords == seq![Chord { root: 57, minor: true }])
            &&& (st.chords.len() > 0 ==> s.chords == st.chords)
            &&& forall|i: int| 0 <= i < s.sections.len() ==> sec_shape(#[trigger] s.sections[i])
        },
{
    if let SpecParse::Parsed(s) = finish(st) {
        let n = st.sections.len() as int;
        assert(s.sections.len() == n);
        assert forall|i: int| 0 <= i < n implies (#[trigger] s.sections[i]).bars == st.sections[i].bars by {}
        assert forall|i: int| 0 <= i < n implies (#[trigger] s.sections[i]).start_bar == bars_before(
            s.sections,
            i,
        ) by {
            lemma_bars_before_mono(st.sections, i, n);
            lemma_bars_before_same(s.sections, st.sections, i);
        }
        lemma_bars_before_same(s.sections, st.sections, n);
        assert forall|i: int| 0 <= i < n implies sec_shape(#[trigger] s.sections[i]) by {
            assert(s.sections[i] == placed_at(st.sections[i], bars_before(st.sections, i)));
            assert(sec_shape(st.sections[i]));
        }
    }
}

/// Every score the reader accepts that holds none of the tokens of `no_unwritable_tokens` is
/// `writable`: written out as text and read back, it comes back as `lemma_dsl_round_trip` states,
/// and in particular every drum fires on the same slots (unless a section without a fill bar has
/// 256 or more phases and a fill grid with a hit) and every voice plays the same note on every
/// slot.
pub proof fn lemma_parsed_scores_read_back(text: Seq<char>)
    requires
        spec_from_str(text) is Parsed,
        no_unwritable_tokens(spec_from_str(text)->Parsed_0),
    ensures
        writable(spec_from_str(text)->Parsed_0),
        spec_from_str(spec_to_dsl(spec_from_str(text)->Parsed_0)) == SpecParse::Parsed(
            reloaded(spec_from_str(text)->Parsed_0),
        ),
        forall|v: Voice, slot: int| slot >= 0 ==> #[trigger] note_at(
            reloaded(spec_from_str(text)->Parsed_0),
            v,
            slot,
        ) == note_at(spec_from_str(text)->Parsed_0, v, slot),
        (forall|i: int|
            0 <= i < (spec_from_str(text)->Parsed_0).sections.len() ==> fills_unheard(
                #[trigger] (spec_from_str(text)->Parsed_0).sections[i],
            )) ==> forall|inst: Inst, slot: int| slot >= 0 ==> #[trigger] fires(
            reloaded(spec_from_str(text)->Parsed_0),
            inst,
            slot,
        ) == fires(spec_from_str(text)->Parsed_0, inst, slot),
{
    let s = spec_from_str(text)->Parsed_0;
    let d0 = initial_draft();
    crate::numbers::lemma_digits_lit(d0.bpm);
    assert(draft_shape(d0));
    let ls = crate::text::lines(text);
    lemma_lines_keep_shape(d0, ls, 1);
    let st = read_lines(d0, ls, 1)->Next_0;
    lemma_finish_shape(st);
    assert(finish(st) == SpecParse::Parsed(s));
    assert forall|i: int| 0 <= i < s.sections.len() implies crate::reload::section_ok(
        #[trigger] s.sections[i],
    ) by {
        let x = s.sections[i];
        assert(sec_shape(x));
        assert(section_tokens_writable(x));
        assert(crate::reload::notes_ok(x.lead));
        assert(crate::reload::notes_ok(x.arp));
        assert(crate::reload::notes_ok(x.bass));
        if x.fx is Some {
            let f = x.fx->0;
            assert(crate::reload::all_cut(f));
        }
    }
    assert(writable(s));
    lemma_dsl_round_trip(s);
}

} // verus!
