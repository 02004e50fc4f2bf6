//! The tracker-DSL score reader: the text is read line by line (a `# comment` is cut, the rest
//! trimmed) and each line updates a draft of the score — tempo, chords, sections, knobs, patterns,
//! melodies, dynamics — or rejects the text with a message naming the line.
use vstd::prelude::*;
use crate::text::{
    comment_cut, comment_cut_at, eq_ic, eq_lit, eq_lit_ic, find_char, is_ws, lines, lemma_lines_cons,
    split_once, split_once_at, split_pieces, lemma_split_pieces_cons, strip_cr, trim, trim_bounds,
    trim_start_char, trim_start_char_at, word_bounds, words, words_vec, chars_of, to_vec, vv,
};
use crate::numbers::{
    NumLit, dec, is_float_lit, is_float_lit_exec, parse_unsigned, parse_u32, parse_usize, pf, pf_exec,
    push_chars, push_dec, push_str, string_of,
};
use crate::pattern::{Lane, LaneV, spec_parse_pattern, parse_pattern};
use crate::notes::{
    Chord, NoteLane, NoteLaneV, Scan, spec_parse_chord, parse_chord, spec_parse_notes, parse_notes,
    phrase_view,
};
use crate::section::{
    Params, Ramp, Section, SectionV, fresh_section, inst_named, inst_named_exec, knobs_insert,
    strings_view,
};
use crate::pattern::Inst;
use crate::score::{Score, ScoreV, bars_before, placed_at, score_wf, sections_view};

verus! {

// ---- the draft ----------------------------------------------------------------------------------

/// What the lines read so far have set.
#[verifier::ext_equal]
pub struct Draft {
    pub bpm: Seq<char>,
    pub chords: Seq<Chord>,
    pub sections: Seq<SectionV>,
    pub params: Seq<(Seq<char>, Seq<char>)>,
}

/// The result of reading one line (or all of them): the updated draft, a rejection message, or a
/// line the reader cannot take.
pub enum LineStep {
    Next(Draft),
    Fail(Seq<char>),
    Panics,
}

/// The result of reading a whole score text.
pub enum SpecParse {
    Parsed(ScoreV),
    Rejected(Seq<char>),
    Panics,
}

/// Before any line: 140 bpm, nothing else.
pub open spec fn initial_draft() -> Draft {
    Draft { bpm: seq!['1', '4', '0'], chords: seq![], sections: seq![], params: seq![] }
}

// ---- messages -----------------------------------------------------------------------------------

/// `line <n>: ` — every line error starts so.
pub open spec fn line_prefix(ln: nat) -> Seq<char> {
    "line "@ + dec(ln) + ": "@
}

/// A line error: a text, a token, a text.
pub open spec fn msg3(ln: nat, a: Seq<char>, t: Seq<char>, b: Seq<char>) -> Seq<char> {
    line_prefix(ln) + a + t + b
}

/// A line error with two tokens.
pub open spec fn msg5(
    ln: nat,
    a: Seq<char>,
    t: Seq<char>,
    b: Seq<char>,
    u: Seq<char>,
    c: Seq<char>,
) -> Seq<char> {
    line_prefix(ln) + a + t + b + u + c
}

pub open spec fn msg_unknown_section(ln: nat, x: Seq<char>) -> Seq<char> {
    msg3(ln, "unknown section `"@, x, "`"@)
}

// ---- lookups ------------------------------------------------------------------------------------

/// The first section named `name`, searching from `i`.
pub open spec fn find_sec_from(secs: Seq<SectionV>, name: Seq<char>, i: int) -> Option<int>
    decreases secs.len() - i,
{
    if i < 0 || i >= secs.len() {
        None
    } else if secs[i].name == name {
        Some(i)
    } else {
        find_sec_from(secs, name, i + 1)
    }
}

pub open spec fn find_sec(secs: Seq<SectionV>, name: Seq<char>) -> Option<int> {
    find_sec_from(secs, name, 0)
}

// ---- field updates ------------------------------------------------------------------------------

pub open spec fn with_section(st: Draft, si: int, s: SectionV) -> Draft {
    Draft { sections: st.sections.update(si, s), ..st }
}

/// Phase `p` of a list set to `x`, the list first extended with `blank`s to reach it.
pub open spec fn set_phase<T>(phases: Seq<T>, p: nat, x: T, blank: T) -> Seq<T> {
    if p < phases.len() {
        phases.update(p as int, x)
    } else {
        phases + Seq::new((p - phases.len()) as nat, |i: int| blank) + seq![x]
    }
}

pub open spec fn lane_set(l: LaneV, phase: Option<nat>, grid: Seq<bool>) -> LaneV {
    match phase {
        None => LaneV { fill: grid, ..l },
        Some(p) => LaneV { phases: set_phase(l.phases, p, grid, crate::pattern::silent_bar()), ..l },
    }
}

pub open spec fn note_lane_set(
    l: NoteLaneV,
    phase: Option<nat>,
    grid: Seq<Seq<Option<i32>>>,
) -> NoteLaneV {
    match phase {
        None => NoteLaneV { fill: grid, ..l },
        Some(p) => NoteLaneV { phases: set_phase(l.phases, p, grid, seq![]), ..l },
    }
}

pub open spec fn with_drum(s: SectionV, inst: Inst, phase: Option<nat>, grid: Seq<bool>) -> SectionV {
    match inst {
        Inst::Kick => SectionV { kick: lane_set(s.kick, phase, grid), ..s },
        Inst::Snare => SectionV { snare: lane_set(s.snare, phase, grid), ..s },
        Inst::Hat => SectionV { hat: lane_set(s.hat, phase, grid), ..s },
        Inst::Stab => SectionV { stab: lane_set(s.stab, phase, grid), ..s },
    }
}

/// Which note lane a name of the DSL denotes: `arp`, `bass`, else `lead`.
pub open spec fn with_notes(
    s: SectionV,
    inst: Seq<char>,
    phase: Option<nat>,
    grid: Seq<Seq<Option<i32>>>,
) -> SectionV {
    if inst == "arp"@ {
        SectionV { arp: note_lane_set(s.arp, phase, grid), ..s }
    } else if inst == "bass"@ {
        SectionV { bass: note_lane_set(s.bass, phase, grid), ..s }
    } else {
        SectionV { lead: note_lane_set(s.lead, phase, grid), ..s }
    }
}

/// `gain`, `sub` or `mids` of a section set to a ramp.
pub open spec fn with_dyn(s: SectionV, kw: Seq<char>, r: (Seq<char>, Seq<char>)) -> SectionV {
    if kw == "gain"@ {
        SectionV { gain: r, ..s }
    } else if kw == "sub"@ {
        SectionV { sub: r, ..s }
    } else {
        SectionV { mids: r, ..s }
    }
}

// ---- token readers ------------------------------------------------------------------------------

/// The result of reading chord tokens: the chords, the first bad token, or a token that panics.
pub enum ChordScan {
    Chords(Seq<Chord>),
    BadTok(Seq<char>),
    Panics,
}

pub open spec fn read_chords(toks: Seq<Seq<char>>) -> ChordScan
    decreases toks.len(),
{
    if toks.len() == 0 {
        ChordScan::Chords(seq![])
    } else {
        match spec_parse_chord(toks[0]) {
            Scan::Read(c) => match read_chords(toks.drop_first()) {
                ChordScan::Chords(cs) => ChordScan::Chords(seq![c] + cs),
                other => other,
            },
            Scan::Rejected => ChordScan::BadTok(toks[0]),
            Scan::Panics => ChordScan::Panics,
        }
    }
}

/// The values of the pieces that read as `u32`, in order (the others are skipped).
pub open spec fn filter_u32(pieces: Seq<Seq<char>>) -> Seq<u32>
    decreases pieces.len(),
{
    if pieces.len() == 0 {
        seq![]
    } else {
        match parse_unsigned(pieces[0], u32::MAX as nat) {
            Some(v) => seq![v as u32] + filter_u32(pieces.drop_first()),
            None => filter_u32(pieces.drop_first()),
        }
    }
}

/// The options after a section's bar count: `fill` (any case) marks a fill bar; any other token is
/// a comma list of phase spans, and the last list with a readable span replaces the phases.
pub open spec fn section_opts(toks: Seq<Seq<char>>, phases: Seq<u32>, fill: bool) -> (Seq<u32>, bool)
    decreases toks.len(),
{
    if toks.len() == 0 {
        (phases, fill)
    } else if eq_ic(toks[0], "fill"@) {
        section_opts(toks.drop_first(), phases, true)
    } else {
        let ph = filter_u32(split_pieces(toks[0], ','));
        section_opts(toks.drop_first(), if ph.len() > 0 {
            ph
        } else {
            phases
        }, fill)
    }
}

/// A dynamics value: `v` (constant) or `a>b` (a ramp), each read leading-dot-tolerantly.
pub open spec fn spec_parse_ramp(s: Seq<char>) -> Option<(Seq<char>, Seq<char>)> {
    match split_once(s, '>') {
        Some((a, b)) => match (pf(a), pf(b)) {
            (Some(x), Some(y)) => Some((x, y)),
            _ => None,
        },
        None => match pf(s) {
            Some(x) => Some((x, x)),
            None => None,
        },
    }
}

/// `key=value` tokens into the knobs of section `target` (or the global ones when `None`).
pub open spec fn read_knobs(
    st: Draft,
    ln: nat,
    target: Option<int>,
    sec: Seq<char>,
    toks: Seq<Seq<char>>,
) -> LineStep
    decreases toks.len(),
{
    if toks.len() == 0 {
        LineStep::Next(st)
    } else {
        let tok = toks[0];
        match split_once(tok, '=') {
            None => LineStep::Fail(
                match target {
                    Some(_) => msg5(ln, "`"@, sec, ".set` needs key=value, got `"@, tok, "`"@),
                    None => msg3(ln, "`set` needs key=value, got `"@, tok, "`"@),
                },
            ),
            Some((k, v)) => if !is_float_lit(v) {
                LineStep::Fail(msg3(ln, "bad set value `"@, tok, "`"@))
            } else {
                let st2 = match target {
                    Some(si) => with_section(
                        st,
                        si,
                        SectionV { params: knobs_insert(st.sections[si].params, k, v), ..st.sections[si] },
                    ),
                    None => Draft { params: knobs_insert(st.params, k, v), ..st },
                };
                read_knobs(st2, ln, target, sec, toks.drop_first())
            },
        }
    }
}

/// `name value` pairs of a `gain`/`sub`/`mids` line; a trailing unpaired token is ignored.
pub open spec fn read_dyn(st: Draft, ln: nat, kw: Seq<char>, toks: Seq<Seq<char>>) -> LineStep
    decreases toks.len(),
{
    if toks.len() < 2 {
        LineStep::Next(st)
    } else {
        let name = toks[0];
        let val = toks[1];
        match find_sec(st.sections, name) {
            None => LineStep::Fail(msg_unknown_section(ln, name)),
            Some(si) => match spec_parse_ramp(val) {
                None => LineStep::Fail(msg3(ln, "bad value `"@, val, "`"@)),
                Some(r) => read_dyn(
                    with_section(st, si, with_dyn(st.sections[si], kw, r)),
                    ln,
                    kw,
                    toks.skip(2),
                ),
            },
        }
    }
}

// ---- lines --------------------------------------------------------------------------------------

/// A `<section>.<inst> <phase>: <data>` line, once section `si` and the phase are known.
pub open spec fn lane_line(
    st: Draft,
    ln: nat,
    si: int,
    inst: Seq<char>,
    phase: Option<nat>,
    pat: Seq<char>,
) -> LineStep {
    let s = st.sections[si];
    if inst == "chords"@ {
        match read_chords(words(pat)) {
            ChordScan::Chords(cs) => LineStep::Next(
                with_section(st, si, SectionV { chords: cs, ..s }),
            ),
            ChordScan::BadTok(t) => LineStep::Fail(msg3(ln, "bad chord `"@, t, "`"@)),
            ChordScan::Panics => LineStep::Panics,
        }
    } else if inst == "fx"@ {
        LineStep::Next(with_section(st, si, SectionV { fx: Some(words(pat)), ..s }))
    } else if inst == "lead"@ || inst == "arp"@ || inst == "bass"@ {
        match spec_parse_notes(pat) {
            Scan::Read(grid) => if phase == Some(usize::MAX as nat) {
                LineStep::Panics
            } else {
                LineStep::Next(with_section(st, si, with_notes(s, inst, phase, grid)))
            },
            Scan::Rejected => LineStep::Fail(
                msg3(ln, ""@, inst, " needs 16 notes/rests (or a multiple of 16)"@),
            ),
            Scan::Panics => LineStep::Panics,
        }
    } else {
        match spec_parse_pattern(pat) {
            None => LineStep::Fail(msg3(ln, "pattern must be 16 of x/."@, seq![], ""@)),
            Some(grid) => match inst_named(inst) {
                None => LineStep::Fail(msg3(ln, "unknown instrument `"@, inst, "`"@)),
                Some(i) => if phase == Some(usize::MAX as nat) {
                    LineStep::Panics
                } else {
                    LineStep::Next(with_section(st, si, with_drum(s, i, phase, grid)))
                },
            },
        }
    }
}

/// The phase token of a pattern line: `fill` (any case) is the fill bar; otherwise `p<N>` (any
/// number of leading `p`s) read as a `usize`; `None` when unreadable.
pub open spec fn read_phase(tok: Seq<char>) -> Option<Option<nat>> {
    if eq_ic(tok, "fill"@) {
        Some(None)
    } else {
        match parse_unsigned(trim_start_char(tok, 'p'), usize::MAX as nat) {
            Some(p) => Some(Some(p)),
            None => None,
        }
    }
}

/// A line whose first word holds a `.`: a section knob line (`<section>.set k=v …`) or a
/// `<section>.<inst> [phase]: <data>` line.
pub open spec fn dotted_line(st: Draft, ln: nat, line: Seq<char>, ws: Seq<Seq<char>>) -> LineStep {
    let first = ws[0];
    let (sec, after) = split_once(first, '.')->0;
    if after == "set"@ {
        match find_sec(st.sections, sec) {
            None => LineStep::Fail(msg_unknown_section(ln, sec)),
            Some(si) => read_knobs(st, ln, Some(si), sec, ws.drop_first()),
        }
    } else {
        match split_once(line, ':') {
            None => LineStep::Fail(msg3(ln, "pattern needs a ':'"@, seq![], ""@)),
            Some((head, pat)) => {
                let hw = words(head);
                if hw.len() == 0 {
                    LineStep::Panics
                } else {
                    let target = hw[0];
                    let phase_tok = if hw.len() > 1 {
                        hw[1]
                    } else {
                        seq!['p', '0']
                    };
                    match split_once(target, '.') {
                        None => LineStep::Fail(
                            msg3(ln, "expected `section.inst`, got `"@, target, "`"@),
                        ),
                        Some((sname, inst)) => match find_sec(st.sections, sname) {
                            None => LineStep::Fail(msg_unknown_section(ln, sname)),
                            Some(si) => match read_phase(phase_tok) {
                                None => LineStep::Fail(msg3(ln, "bad phase `"@, phase_tok, "`"@)),
                                Some(phase) => lane_line(st, ln, si, inst, phase, pat),
                            },
                        },
                    }
                }
            },
        }
    }
}

/// A keyword line: `bpm`, `section`, `chords`, `gain`/`sub`/`mids` or `set`.
pub open spec fn keyword_line(st: Draft, ln: nat, ws: Seq<Seq<char>>) -> LineStep {
    let kw = ws[0];
    let rest = ws.drop_first();
    if kw == "bpm"@ {
        if rest.len() > 0 && pf(rest[0]) is Some {
            LineStep::Next(Draft { bpm: pf(rest[0])->0, ..st })
        } else {
            LineStep::Fail(msg3(ln, "bpm needs a number"@, seq![], ""@))
        }
    } else if kw == "section"@ {
        if rest.len() == 0 {
            LineStep::Fail(msg3(ln, "section needs a name"@, seq![], ""@))
        } else if rest.len() < 2 || parse_unsigned(rest[1], u32::MAX as nat) is None {
            LineStep::Fail(msg3(ln, "section needs a bar count"@, seq![], ""@))
        } else {
            let bars = (parse_unsigned(rest[1], u32::MAX as nat)->0) as u32;
            let (phases, fill) = section_opts(rest.skip(2), seq![bars], false);
            LineStep::Next(
                Draft { sections: st.sections.push(fresh_section(rest[0], bars, phases, fill)), ..st },
            )
        }
    } else if kw == "chords"@ {
        match read_chords(rest) {
            ChordScan::Chords(cs) => LineStep::Next(Draft { chords: st.chords + cs, ..st }),
            ChordScan::BadTok(t) => LineStep::Fail(msg3(ln, "bad chord `"@, t, "`"@)),
            ChordScan::Panics => LineStep::Panics,
        }
    } else if kw == "gain"@ || kw == "sub"@ || kw == "mids"@ {
        read_dyn(st, ln, kw, rest)
    } else if kw == "set"@ {
        read_knobs(st, ln, None, seq![], rest)
    } else {
        LineStep::Fail(msg3(ln, "unknown keyword `"@, kw, "`"@))
    }
}

/// The text of a raw line that counts: cut at its comment, trimmed.
pub open spec fn line_content(raw: Seq<char>) -> Seq<char> {
    trim(raw.take(comment_cut(raw)))
}

/// One raw line (numbered `ln`, from 1): blank lines and comments change nothing.
#[verifier::opaque]
pub open spec fn read_line(st: Draft, ln: nat, raw: Seq<char>) -> LineStep {
    let line = line_content(raw);
    if line.len() == 0 {
        LineStep::Next(st)
    } else {
        let ws = words(line);
        if ws[0].contains('.') {
            dotted_line(st, ln, line, ws)
        } else {
            keyword_line(st, ln, ws)
        }
    }
}

/// The lines in order, the first numbered `ln`; the first failing line decides.
pub open spec fn read_lines(st: Draft, ls: Seq<Seq<char>>, ln: nat) -> LineStep
    decreases ls.len(),
{
    if ls.len() == 0 {
        LineStep::Next(st)
    } else {
        match read_line(st, ln, ls[0]) {
            LineStep::Next(st2) => read_lines(st2, ls.drop_first(), ln + 1),
            other => other,
        }
    }
}

/// The score a finished draft makes: at least one section is needed; the sections are laid end to
/// end; no chords means a single A-minor.
pub open spec fn finish(st: Draft) -> SpecParse {
    if st.sections.len() == 0 {
        SpecParse::Rejected("no sections defined"@)
    } else if bars_before(st.sections, st.sections.len() as int) > u32::MAX {
        SpecParse::Panics
    } else {
        SpecParse::Parsed(
            ScoreV {
                bpm: st.bpm,
                chords: if st.chords.len() == 0 {
                    seq![Chord { root: 57, minor: true }]
                } else {
                    st.chords
                },
                sections: Seq::new(
                    st.sections.len(),
                    |i: int| placed_at(st.sections[i], bars_before(st.sections, i)),
                ),
                total_bars: bars_before(st.sections, st.sections.len() as int) as u32,
                params: st.params,
            },
        )
    }
}

/// The reading of a whole score text.
pub open spec fn spec_from_str(text: Seq<char>) -> SpecParse {
    match read_lines(initial_draft(), lines(text), 1) {
        LineStep::Next(st) => finish(st),
        LineStep::Fail(m) => SpecParse::Rejected(m),
        LineStep::Panics => SpecParse::Panics,
    }
}

// ---- exec: the draft and its steps ---------------------------------------------------------------

/// The score being read: what the lines so far have set.
pub struct ScoreDraft {
    pub bpm: NumLit,
    pub chords: Vec<Chord>,
    pub sections: Vec<Section>,
    pub params: Params,
}

impl View for ScoreDraft {
    type V = Draft;

    open spec fn view(&self) -> Draft {
        Draft {
            bpm: self.bpm@,
            chords: self.chords@,
            sections: sections_view(self.sections@),
            params: self.params@,
        }
    }
}

impl ScoreDraft {
    pub open spec fn wf(&self) -> bool {
        &&& self.bpm.wf()
        &&& self.params.wf()
        &&& forall|i: int| 0 <= i < self.sections@.len() ==> (#[trigger] self.sections@[i]).wf()
    }
}

/// What reading a line did: go on, reject with a message, or a line that cannot be taken.
pub enum StepResult {
    Next,
    Fail(String),
    Panics,
}

/// `r` (with the draft now `after`) is what the spec step `s` says.
pub open spec fn step_is(r: StepResult, after: Draft, s: LineStep) -> bool {
    match s {
        LineStep::Next(d) => r is Next && after == d,
        LineStep::Fail(m) => r matches StepResult::Fail(x) && x@ == m,
        LineStep::Panics => r is Panics,
    }
}

/// No chars.
pub fn no_chars() -> (r: Vec<char>)
    ensures
        r@ == Seq::<char>::empty(),
{
    Vec::new()
}

/// `line <ln>: <a><t><b>`.
pub fn line_msg(ln: usize, a: &str, t: &[char], b: &str) -> (r: String)
    ensures
        r@ == msg3(ln as nat, a@, t@, b@),
{
    let mut m = String::new();
    push_str(&mut m, "line ");
    push_dec(&mut m, ln as u64);
    push_str(&mut m, ": ");
    push_str(&mut m, a);
    push_chars(&mut m, t);
    push_str(&mut m, b);
    assert(m@ =~= msg3(ln as nat, a@, t@, b@));
    m
}

/// `line <ln>: <a><t><b><u><c>`.
pub fn line_msg5(ln: usize, a: &str, t: &[char], b: &str, u: &[char], c: &str) -> (r: String)
    ensures
        r@ == msg5(ln as nat, a@, t@, b@, u@, c@),
{
    let mut m = String::new();
    push_str(&mut m, "line ");
    push_dec(&mut m, ln as u64);
    push_str(&mut m, ": ");
    push_str(&mut m, a);
    push_chars(&mut m, t);
    push_str(&mut m, b);
    push_chars(&mut m, u);
    push_str(&mut m, c);
    assert(m@ =~= msg5(ln as nat, a@, t@, b@, u@, c@));
    m
}

/// The first section named `name`.
pub fn find_section(secs: &Vec<Section>, name: &[char]) -> (r: Option<usize>)
    ensures
        match r {
            Some(i) => find_sec(sections_view(secs@), name@) == Some(i as int) && i < secs@.len(),
            None => find_sec(sections_view(secs@), name@).is_none(),
        },
{
    let ghost sv = sections_view(secs@);
    let mut i: usize = 0;
    while i < secs.len()
        invariant
            sv == sections_view(secs@),
            i <= secs@.len(),
            find_sec(sv, name@) == find_sec_from(sv, name@, i as int),
        decreases secs@.len() - i,
    {
        let n = chars_of(secs[i].name.as_str());
        proof {
            assert(sv[i as int].name == n@);
        }
        if crate::text::chars_eq(n.as_slice(), name) {
            return Some(i);
        }
        i += 1;
    }
    None
}

/// The result of reading chord tokens.
pub enum ChordsRead {
    Chords(Vec<Chord>),
    BadTok(usize),
    Panics,
}

/// Chord tokens `toks[from..]` in order.
pub fn read_chords_exec(toks: &Vec<Vec<char>>, from: usize) -> (r: ChordsRead)
    requires
        from <= toks@.len(),
    ensures
        match read_chords(crate::text::vv(toks@).skip(from as int)) {
            ChordScan::Chords(cs) => r matches ChordsRead::Chords(v) && v@ == cs,
            ChordScan::BadTok(t) => r matches ChordsRead::BadTok(k) && from <= k < toks@.len()
                && toks@[k as int]@ == t,
            ChordScan::Panics => r is Panics,
        },
{
    let ghost all = crate::text::vv(toks@);
    let mut out: Vec<Chord> = Vec::new();
    let mut k = from;
    while k < toks.len()
        invariant
            all == crate::text::vv(toks@),
            from <= k <= toks@.len(),
            read_chords(all.skip(from as int)) == (match read_chords(all.skip(k as int)) {
                ChordScan::Chords(cs) => ChordScan::Chords(out@ + cs),
                other => other,
            }),
        decreases toks@.len() - k,
    {
        proof {
            assert(all.skip(k as int)[0] == toks@[k as int]@);
            assert(all.skip(k as int).drop_first() =~= all.skip(k + 1));
        }
        match parse_chord(toks[k].as_slice()) {
            Scan::Read(c) => {
                proof {
                    if let ChordScan::Chords(cs) = read_chords(all.skip(k + 1)) {
                        assert(out@ + (seq![c] + cs) =~= out@.push(c) + cs);
                    }
                }
                out.push(c);
            },
            Scan::Rejected => {
                return ChordsRead::BadTok(k);
            },
            Scan::Panics => {
                return ChordsRead::Panics;
            },
        }
        k += 1;
    }
    proof {
        assert(all.skip(k as int).len() == 0);
        assert(out@ + Seq::<Chord>::empty() =~= out@);
    }
    ChordsRead::Chords(out)
}

/// The `u32` values among the comma-separated pieces of `tok`.
pub fn filter_u32_exec(tok: &[char]) -> (r: Vec<u32>)
    ensures
        r@ == filter_u32(split_pieces(tok@, ',')),
{
    let mut out: Vec<u32> = Vec::new();
    let mut p: usize = 0;
    let mut done = false;
    assert(tok@.skip(0) =~= tok@);
    while !done
        invariant
            p <= tok@.len(),
            !done ==> filter_u32(split_pieces(tok@, ',')) == out@ + filter_u32(split_pieces(
                tok@.skip(p as int),
                ',',
            )),
            done ==> filter_u32(split_pieces(tok@, ',')) == out@,
        decreases tok@.len() - p + (if done {
            0int
        } else {
            1int
        }),
    {
        let e = find_char(tok, p, ',');
        proof {
            lemma_split_pieces_cons(tok@, ',', p as int, e as int);
        }
        let piece = &tok[p..e];
        let v = parse_u32(piece);
        let ghost pieces_rest = if e < tok@.len() {
            split_pieces(tok@.skip(e + 1), ',')
        } else {
            Seq::<Seq<char>>::empty()
        };
        proof {
            let ps = split_pieces(tok@.skip(p as int), ',');
            assert(ps[0] == piece@);
            if e < tok@.len() {
                assert(ps.drop_first() =~= pieces_rest);
            } else {
                assert(ps.drop_first() =~= pieces_rest);
                assert(filter_u32(pieces_rest) =~= Seq::<u32>::empty());
            }
        }
        let ghost old_out = out@;
        match v {
            Some(x) => {
                out.push(x);
                proof {
                    assert(old_out + (seq![x] + filter_u32(pieces_rest)) =~= out@ + filter_u32(
                        pieces_rest,
                    ));
                }
            },
            None => {},
        }
        if e < tok.len() {
            p = e + 1;
        } else {
            proof {
                assert(out@ + filter_u32(pieces_rest) =~= out@);
            }
            done = true;
        }
    }
    out
}

/// The options after a section's bar count (`toks[from..]`).
pub fn section_opts_exec(toks: &Vec<Vec<char>>, from: usize, bars: u32) -> (r: (Vec<u32>, bool))
    requires
        from <= toks@.len(),
    ensures
        (r.0@, r.1) == section_opts(crate::text::vv(toks@).skip(from as int), seq![bars], false),
{
    let ghost all = crate::text::vv(toks@);
    let mut phases: Vec<u32> = Vec::new();
    phases.push(bars);
    let mut fill = false;
    let mut k = from;
    assert(phases@ =~= seq![bars]);
    while k < toks.len()
        invariant
            all == crate::text::vv(toks@),
            from <= k <= toks@.len(),
            section_opts(all.skip(from as int), seq![bars], false) == section_opts(
                all.skip(k as int),
                phases@,
                fill,
            ),
        decreases toks@.len() - k,
    {
        proof {
            assert(all.skip(k as int)[0] == toks@[k as int]@);
            assert(all.skip(k as int).drop_first() =~= all.skip(k + 1));
        }
        if eq_lit_ic(toks[k].as_slice(), "fill") {
            fill = true;
        } else {
            let ph = filter_u32_exec(toks[k].as_slice());
            if ph.len() > 0 {
                phases = ph;
            }
        }
        k += 1;
    }
    (phases, fill)
}

/// A dynamics value: `v` or `a>b`.
pub fn parse_ramp(s: &[char]) -> (r: Option<Ramp>)
    ensures
        match r {
            Some(x) => spec_parse_ramp(s@) == Some(x@) && x.wf(),
            None => spec_parse_ramp(s@).is_none(),
        },
{
    let n = s.len();
    match split_once_at(s, '>') {
        Some(i) => {
            proof {
                assert(s@.take(i as int) =~= s@.subrange(0, i as int));
                assert(s@.skip(i + 1) =~= s@.subrange(i + 1, s@.len() as int));
            }
            let a = pf_exec(&s[0..i]);
            let b = pf_exec(&s[i + 1..n]);
            match (a, b) {
                (Some(x), Some(y)) => Some(Ramp::new(x, y)),
                _ => None,
            }
        },
        None => match pf_exec(s) {
            Some(x) => Some(Ramp::c(x)),
            None => None,
        },
    }
}

pub open spec fn opt_int(t: Option<usize>) -> Option<int> {
    match t {
        Some(i) => Some(i as int),
        None => None,
    }
}

/// `key=value` tokens `toks[from..]` into the knobs of section `target` (or the global ones).
pub fn read_knobs_exec(
    st: &mut ScoreDraft,
    ln: usize,
    target: Option<usize>,
    sec: &[char],
    toks: &Vec<Vec<char>>,
    from: usize,
) -> (r: StepResult)
    requires
        old(st).wf(),
        from <= toks@.len(),
        target matches Some(si) ==> si < old(st).sections@.len(),
    ensures
        step_is(
            r,
            final(st)@,
            read_knobs(old(st)@, ln as nat, opt_int(target), sec@, crate::text::vv(toks@).skip(from as int)),
        ),
        final(st).wf(),
        final(st).sections@.len() == old(st).sections@.len(),
{
    let ghost all = crate::text::vv(toks@);
    let ghost goal = read_knobs(st@, ln as nat, opt_int(target), sec@, all.skip(from as int));
    let mut k = from;
    while k < toks.len()
        invariant
            all == crate::text::vv(toks@),
            from <= k <= toks@.len(),
            st.wf(),
            target matches Some(si) ==> si < st.sections@.len(),
            st.sections@.len() == old(st).sections@.len(),
            goal == read_knobs(st@, ln as nat, opt_int(target), sec@, all.skip(k as int)),
            goal == read_knobs(old(st)@, ln as nat, opt_int(target), sec@, all.skip(from as int)),
        decreases toks@.len() - k,
    {
        let tok = toks[k].as_slice();
        proof {
            assert(all.skip(k as int)[0] == tok@);
            assert(all.skip(k as int).drop_first() =~= all.skip(k + 1));
        }
        let n = tok.len();
        match split_once_at(tok, '=') {
            None => {
                let m = match target {
                    Some(_) => line_msg5(ln, "`", sec, ".set` needs key=value, got `", tok, "`"),
                    None => line_msg(ln, "`set` needs key=value, got `", tok, "`"),
                };
                return StepResult::Fail(m);
            },
            Some(i) => {
                let v = &tok[i + 1..n];
                let key = &tok[0..i];
                proof {
                    assert(v@ =~= tok@.skip(i + 1));
                    assert(key@ =~= tok@.take(i as int));
                }
                if !is_float_lit_exec(v) {
                    return StepResult::Fail(line_msg(ln, "bad set value `", tok, "`"));
                }
                let lit = NumLit::from_chars(v);
                match target {
                    Some(si) => {
                        let ghost old_secs = sections_view(st.sections@);
                        let ghost old_s = st.sections@[si as int];
                        let ghost before = st.sections@;
                        assert(old_s.wf());
                        st.sections[si].params.insert(key, lit);
                        proof {
                            assert(old_secs[si as int] == old_s@);
                            assert(sections_view(st.sections@) =~= old_secs.update(
                                si as int,
                                SectionV {
                                    params: knobs_insert(old_secs[si as int].params, key@, v@),
                                    ..old_secs[si as int]
                                },
                            ));
                            assert forall|j: int| 0 <= j < st.sections@.len() implies (
                            #[trigger] st.sections@[j]).wf() by {
                                if j != si {
                                    assert(st.sections@[j] == before[j]);
                                }
                            }
                        }
                    },
                    None => {
                        st.params.insert(key, lit);
                    },
                }
            },
        }
        k += 1;
    }
    proof {
        assert(all.skip(k as int).len() == 0);
    }
    StepResult::Next
}

/// `name value` pairs `toks[from..]` of a `gain`/`sub`/`mids` line.
pub fn read_dyn_exec(st: &mut ScoreDraft, ln: usize, kw: &[char], toks: &Vec<Vec<char>>, from: usize) -> (r: StepResult)
    requires
        old(st).wf(),
        from <= toks@.len(),
    ensures
        step_is(r, final(st)@, read_dyn(old(st)@, ln as nat, kw@, crate::text::vv(toks@).skip(from as int))),
        final(st).wf(),
        final(st).sections@.len() == old(st).sections@.len(),
{
    let ghost all = crate::text::vv(toks@);
    let ghost goal = read_dyn(st@, ln as nat, kw@, all.skip(from as int));
    let is_gain = eq_lit(kw, "gain");
    let is_sub = eq_lit(kw, "sub");
    let mut k = from;
    while k < toks.len() && toks.len() - k > 1
        invariant
            all == crate::text::vv(toks@),
            from <= k <= toks@.len(),
            st.wf(),
            st.sections@.len() == old(st).sections@.len(),
            is_gain == (kw@ == "gain"@),
            is_sub == (kw@ == "sub"@),
            goal == read_dyn(st@, ln as nat, kw@, all.skip(k as int)),
            goal == read_dyn(old(st)@, ln as nat, kw@, all.skip(from as int)),
        decreases toks@.len() - k,
    {
        let name = toks[k].as_slice();
        let val = toks[k + 1].as_slice();
        proof {
            assert(all.skip(k as int)[0] == name@);
            assert(all.skip(k as int)[1] == val@);
            assert(all.skip(k as int).skip(2) =~= all.skip(k + 2));
        }
        let si = match find_section(&st.sections, name) {
            Some(si) => si,
            None => {
                return StepResult::Fail(line_msg(ln, "unknown section `", name, "`"));
            },
        };
        let r = match parse_ramp(val) {
            Some(r) => r,
            None => {
                return StepResult::Fail(line_msg(ln, "bad value `", val, "`"));
            },
        };
        let ghost rv = r@;
        let ghost before = st.sections@;
        let ghost old_secs = sections_view(st.sections@);
        if is_gain {
            st.sections[si].gain = r;
        } else if is_sub {
            st.sections[si].sub = r;
        } else {
            st.sections[si].mids = r;
        }
        proof {
            assert(sections_view(st.sections@) =~= old_secs.update(
                si as int,
                with_dyn(old_secs[si as int], kw@, rv),
            ));
            assert forall|j: int| 0 <= j < st.sections@.len() implies (#[trigger] st.sections@[j]).wf() by {
                if j != si {
                    assert(st.sections@[j] == before[j]);
                } else {
                    assert(before[j].wf());
                }
            }
        }
        k += 2;
    }
    proof {
        assert(all.skip(k as int).len() < 2);
    }
    StepResult::Next
}

pub open spec fn opt_nat(p: Option<usize>) -> Option<nat> {
    match p {
        Some(x) => Some(x as nat),
        None => None,
    }
}

pub open spec fn grids_view(v: Seq<[bool; 16]>) -> Seq<Seq<bool>> {
    v.map_values(|a: [bool; 16]| a@)
}

/// A drum lane's phase (or fill) set to `grid`, extending the phases with silent bars to reach it.
pub fn set_drum(l: &mut Lane, phase: Option<usize>, grid: [bool; 16])
    requires
        phase != Some(usize::MAX),
    ensures
        final(l)@ == lane_set(old(l)@, opt_nat(phase), grid@),
{
    match phase {
        None => {
            let ghost l0 = l@;
            l.fill = grid;
            assert(l@ =~= lane_set(l0, opt_nat(phase), grid@));
        },
        Some(p) => {
            let ghost ph0 = grids_view(l.phases@);
            if p < l.phases.len() {
                l.phases.set(p, grid);
                assert(grids_view(l.phases@) =~= ph0.update(p as int, grid@));
            } else {
                let ghost n0 = l.phases@.len();
                while l.phases.len() < p
                    invariant
                        n0 <= l.phases@.len() <= p,
                        l.fill == old(l).fill,
                        grids_view(l.phases@) =~= ph0 + Seq::new(
                            (l.phases@.len() - n0) as nat,
                            |i: int| crate::pattern::silent_bar(),
                        ),
                    decreases p - l.phases@.len(),
                {
                    let ghost before = grids_view(l.phases@);
                    let g = crate::pattern::silent_grid();
                    l.phases.push(g);
                    proof {
                        assert(grids_view(l.phases@) =~= before.push(crate::pattern::silent_bar()));
                        assert(Seq::new((l.phases@.len() - n0) as nat, |i: int| crate::pattern::silent_bar())
                            =~= Seq::new((before.len() - n0) as nat, |i: int| crate::pattern::silent_bar()).push(
                            crate::pattern::silent_bar()));
                    }
                }
                l.phases.push(grid);
                assert(grids_view(l.phases@) =~= ph0 + Seq::new(
                    (p - n0) as nat,
                    |i: int| crate::pattern::silent_bar(),
                ) + seq![grid@]);
            }
        },
    }
}

pub open spec fn phrases_view(v: Seq<Vec<[Option<i32>; 16]>>) -> Seq<Seq<Seq<Option<i32>>>> {
    v.map_values(|p: Vec<[Option<i32>; 16]>| phrase_view(p@))
}

/// A note lane's phase (or fill) set to `grid`, extending the phases with empty phrases.
pub fn set_notes(l: &mut NoteLane, phase: Option<usize>, grid: Vec<[Option<i32>; 16]>)
    requires
        phase != Some(usize::MAX),
    ensures
        final(l)@ == note_lane_set(old(l)@, opt_nat(phase), phrase_view(grid@)),
{
    let ghost gv = phrase_view(grid@);
    match phase {
        None => {
            let ghost l0 = l@;
            l.fill = grid;
            assert(l@ =~= note_lane_set(l0, opt_nat(phase), gv));
        },
        Some(p) => {
            let ghost ph0 = phrases_view(l.phases@);
            if p < l.phases.len() {
                l.phases.set(p, grid);
                assert(phrases_view(l.phases@) =~= ph0.update(p as int, gv));
            } else {
                let ghost n0 = l.phases@.len();
                while l.phases.len() < p
                    invariant
                        n0 <= l.phases@.len() <= p,
                        l.fill == old(l).fill,
                        phrases_view(l.phases@) =~= ph0 + Seq::new(
                            (l.phases@.len() - n0) as nat,
                            |i: int| Seq::<Seq<Option<i32>>>::empty(),
                        ),
                    decreases p - l.phases@.len(),
                {
                    let ghost before = phrases_view(l.phases@);
                    let e: Vec<[Option<i32>; 16]> = Vec::new();
                    assert(phrase_view(e@) =~= Seq::<Seq<Option<i32>>>::empty());
                    l.phases.push(e);
                    proof {
                        assert(phrases_view(l.phases@) =~= before.push(Seq::<Seq<Option<i32>>>::empty()));
                        assert(Seq::new((l.phases@.len() - n0) as nat, |i: int| Seq::<Seq<Option<i32>>>::empty())
                            =~= Seq::new((before.len() - n0) as nat, |i: int| Seq::<Seq<Option<i32>>>::empty()).push(
                            Seq::<Seq<Option<i32>>>::empty()));
                    }
                }
                l.phases.push(grid);
                assert(phrases_view(l.phases@) =~= ph0 + Seq::new(
                    (p - n0) as nat,
                    |i: int| Seq::<Seq<Option<i32>>>::empty(),
                ) + seq![gv]);
            }
        },
    }
}

/// Section `si` replaced: the views of the others stay.
pub proof fn lemma_sections_update(before: Seq<Section>, after: Seq<Section>, si: int)
    requires
        0 <= si < before.len(),
        after == before.update(si, after[si]),
    ensures
        sections_view(after) == sections_view(before).update(si, after[si]@),
        forall|j: int| 0 <= j < after.len() && j != si ==> #[trigger] after[j] == before[j],
{
    assert(sections_view(after) =~= sections_view(before).update(si, after[si]@));
}

/// A `<section>.<inst> [phase]: <data>` line once section `si` and the phase are known.
pub fn lane_line_exec(
    st: &mut ScoreDraft,
    ln: usize,
    si: usize,
    inst: &[char],
    phase: Option<usize>,
    pat: &[char],
) -> (r: StepResult)
    requires
        old(st).wf(),
        si < old(st).sections@.len(),
    ensures
        step_is(r, final(st)@, lane_line(old(st)@, ln as nat, si as int, inst@, opt_nat(phase), pat@)),
        final(st).wf(),
        final(st).sections@.len() == old(st).sections@.len(),
{
    let ghost before = st.sections@;
    let ghost s0 = st@.sections[si as int];
    assert(s0 == before[si as int]@);
    assert(before[si as int].wf());
    if eq_lit(inst, "chords") {
        let toks = words_vec(pat);
        proof {
            assert(crate::text::vv(toks@).skip(0) =~= words(pat@));
        }
        match read_chords_exec(&toks, 0) {
            ChordsRead::Chords(cs) => {
                let ghost csv = cs@;
                st.sections[si].chords = cs;
                proof {
                    lemma_sections_update(before, st.sections@, si as int);
                    assert(st.sections@[si as int]@ =~= SectionV { chords: csv, ..s0 });
                    assert(st@ =~= with_section(old(st)@, si as int, SectionV { chords: csv, ..s0 }));
                    assert forall|j: int| 0 <= j < st.sections@.len() implies (#[trigger] st.sections@[j]).wf() by {
                        if j != si {
                            assert(st.sections@[j] == before[j]);
                        }
                    }
                }
                StepResult::Next
            },
            ChordsRead::BadTok(k) => StepResult::Fail(line_msg(ln, "bad chord `", toks[k].as_slice(), "`")),
            ChordsRead::Panics => StepResult::Panics,
        }
    } else if eq_lit(inst, "fx") {
        let toks = words_vec(pat);
        let mut list: Vec<String> = Vec::new();
        let mut k: usize = 0;
        while k < toks.len()
            invariant
                k <= toks@.len(),
                strings_view(list@) == crate::text::vv(toks@).take(k as int),
            decreases toks@.len() - k,
        {
            let ghost old_list = list@;
            list.push(string_of(toks[k].as_slice()));
            proof {
                assert(strings_view(list@) =~= strings_view(old_list).push(toks@[k as int]@));
                assert(crate::text::vv(toks@).take(k + 1) =~= crate::text::vv(toks@).take(k as int).push(
                    toks@[k as int]@,
                ));
            }
            k += 1;
        }
        proof {
            assert(crate::text::vv(toks@).take(k as int) =~= words(pat@));
        }
        let ghost lv = strings_view(list@);
        st.sections[si].fx = Some(list);
        proof {
            lemma_sections_update(before, st.sections@, si as int);
            assert(st.sections@[si as int]@ =~= SectionV { fx: Some(lv), ..s0 });
            assert(st@ =~= with_section(old(st)@, si as int, SectionV { fx: Some(words(pat@)), ..s0 }));
            assert forall|j: int| 0 <= j < st.sections@.len() implies (#[trigger] st.sections@[j]).wf() by {
                if j != si {
                    assert(st.sections@[j] == before[j]);
                }
            }
        }
        StepResult::Next
    } else if eq_lit(inst, "lead") || eq_lit(inst, "arp") || eq_lit(inst, "bass") {
        match parse_notes(pat) {
            Scan::Read(grid) => {
                if phase == Some(usize::MAX) {
                    return StepResult::Panics;
                }
                let ghost gv = phrase_view(grid@);
                if eq_lit(inst, "arp") {
                    set_notes(&mut st.sections[si].arp, phase, grid);
                } else if eq_lit(inst, "bass") {
                    set_notes(&mut st.sections[si].bass, phase, grid);
                } else {
                    set_notes(&mut st.sections[si].lead, phase, grid);
                }
                proof {
                    lemma_sections_update(before, st.sections@, si as int);
                    assert(st.sections@[si as int]@ =~= with_notes(s0, inst@, opt_nat(phase), gv));
                    assert(st@ =~= with_section(old(st)@, si as int, with_notes(s0, inst@, opt_nat(phase), gv)));
                    assert forall|j: int| 0 <= j < st.sections@.len() implies (#[trigger] st.sections@[j]).wf() by {
                        if j != si {
                            assert(st.sections@[j] == before[j]);
                        }
                    }
                }
                StepResult::Next
            },
            Scan::Rejected => StepResult::Fail(
                line_msg(ln, "", inst, " needs 16 notes/rests (or a multiple of 16)"),
            ),
            Scan::Panics => StepResult::Panics,
        }
    } else {
        match parse_pattern(pat) {
            None => StepResult::Fail(line_msg(ln, "pattern must be 16 of x/.", no_chars().as_slice(), "")),
            Some(grid) => match inst_named_exec(inst) {
                None => StepResult::Fail(line_msg(ln, "unknown instrument `", inst, "`")),
                Some(which) => {
                    if phase == Some(usize::MAX) {
                        return StepResult::Panics;
                    }
                    match which {
                        Inst::Kick => set_drum(&mut st.sections[si].kick, phase, grid),
                        Inst::Snare => set_drum(&mut st.sections[si].snare, phase, grid),
                        Inst::Hat => set_drum(&mut st.sections[si].hat, phase, grid),
                        Inst::Stab => set_drum(&mut st.sections[si].stab, phase, grid),
                    }
                    proof {
                        lemma_sections_update(before, st.sections@, si as int);
                        assert(st.sections@[si as int]@ =~= with_drum(s0, which, opt_nat(phase), grid@));
                        assert(st@ =~= with_section(old(st)@, si as int, with_drum(s0, which, opt_nat(phase), grid@)));
                        assert forall|j: int| 0 <= j < st.sections@.len() implies (#[trigger] st.sections@[j]).wf() by {
                            if j != si {
                                assert(st.sections@[j] == before[j]);
                            }
                        }
                    }
                    StepResult::Next
                },
            },
        }
    }
}

/// The phase token of a pattern line.
pub fn read_phase_exec(tok: &[char]) -> (r: Option<Option<usize>>)
    ensures
        match read_phase(tok@) {
            None => r is None,
            Some(p) => r matches Some(q) && opt_nat(q) == p,
        },
{
    if eq_lit_ic(tok, "fill") {
        return Some(None);
    }
    let i = trim_start_char_at(tok, 'p');
    proof {
        assert(tok@.subrange(i as int, tok@.len() as int) =~= tok@.skip(i as int));
    }
    match parse_usize(&tok[i..tok.len()]) {
        Some(p) => Some(Some(p)),
        None => None,
    }
}

/// A line whose first word holds a `.`.
pub fn dotted_line_exec(st: &mut ScoreDraft, ln: usize, line: &[char], ws: &Vec<Vec<char>>) -> (r: StepResult)
    requires
        old(st).wf(),
        vv(ws@) == words(line@),
        ws@.len() > 0,
        ws@[0]@.contains('.'),
    ensures
        step_is(r, final(st)@, dotted_line(old(st)@, ln as nat, line@, words(line@))),
        final(st).wf(),
{
    let first = ws[0].as_slice();
    let fl = first.len();
    assert(vv(ws@)[0] == first@);
    let i = match split_once_at(first, '.') {
        Some(i) => i,
        None => {
            proof {
                let k = choose|k: int| 0 <= k < first@.len() && first@[k] == '.';
                crate::text::lemma_run_len_bound(first@, crate::text::not_char_pred('.'));
                assert(crate::text::not_char_pred('.')(first@[k]) == false);
            }
            return StepResult::Panics;
        },
    };
    let sec = &first[0..i];
    let after = &first[i + 1..fl];
    proof {
        assert(sec@ =~= first@.take(i as int));
        assert(after@ =~= first@.skip(i + 1));
    }
    if eq_lit(after, "set") {
        match find_section(&st.sections, sec) {
            None => StepResult::Fail(line_msg(ln, "unknown section `", sec, "`")),
            Some(si) => {
                proof {
                    assert(vv(ws@).skip(1) =~= words(line@).drop_first());
                }
                read_knobs_exec(st, ln, Some(si), sec, ws, 1)
            },
        }
    } else {
        let n = line.len();
        match split_once_at(line, ':') {
            None => StepResult::Fail(line_msg(ln, "pattern needs a ':'", no_chars().as_slice(), "")),
            Some(j) => {
                let head = &line[0..j];
                let pat = &line[j + 1..n];
                proof {
                    assert(head@ =~= line@.take(j as int));
                    assert(pat@ =~= line@.skip(j + 1));
                }
                let hw = words_vec(head);
                if hw.len() == 0 {
                    return StepResult::Panics;
                }
                let target = hw[0].as_slice();
                let p0: Vec<char> = vec!['p', '0'];
                let phase_tok: &[char] = if hw.len() > 1 {
                    hw[1].as_slice()
                } else {
                    p0.as_slice()
                };
                proof {
                    assert(vv(hw@)[0] == target@);
                    if hw@.len() > 1 {
                        assert(vv(hw@)[1] == phase_tok@);
                    } else {
                        assert(phase_tok@ =~= seq!['p', '0']);
                    }
                }
                let tl = target.len();
                match split_once_at(target, '.') {
                    None => StepResult::Fail(line_msg(ln, "expected `section.inst`, got `", target, "`")),
                    Some(k) => {
                        let sname = &target[0..k];
                        let inst = &target[k + 1..tl];
                        proof {
                            assert(sname@ =~= target@.take(k as int));
                            assert(inst@ =~= target@.skip(k + 1));
                        }
                        match find_section(&st.sections, sname) {
                            None => StepResult::Fail(line_msg(ln, "unknown section `", sname, "`")),
                            Some(si) => match read_phase_exec(phase_tok) {
                                None => StepResult::Fail(line_msg(ln, "bad phase `", phase_tok, "`")),
                                Some(ph) => lane_line_exec(st, ln, si, inst, ph, pat),
                            },
                        }
                    },
                }
            },
        }
    }
}

/// A keyword line.
pub fn keyword_line_exec(st: &mut ScoreDraft, ln: usize, ws: &Vec<Vec<char>>) -> (r: StepResult)
    requires
        old(st).wf(),
        ws@.len() > 0,
    ensures
        step_is(r, final(st)@, keyword_line(old(st)@, ln as nat, vv(ws@))),
        final(st).wf(),
{
    let kw = ws[0].as_slice();
    let ghost rest = vv(ws@).drop_first();
    proof {
        assert(vv(ws@)[0] == kw@);
        assert(vv(ws@).skip(1) =~= rest);
        if ws@.len() > 1 {
            assert(rest[0] == ws@[1]@);
        }
        if ws@.len() > 2 {
            assert(rest[1] == ws@[2]@);
            assert(rest.skip(2) =~= vv(ws@).skip(3));
        }
    }
    if eq_lit(kw, "bpm") {
        if ws.len() > 1 {
            match pf_exec(ws[1].as_slice()) {
                Some(v) => {
                    st.bpm = v;
                    assert(st@ =~= Draft { bpm: pf(rest[0])->0, ..old(st)@ });
                    return StepResult::Next;
                },
                None => {},
            }
        }
        StepResult::Fail(line_msg(ln, "bpm needs a number", no_chars().as_slice(), ""))
    } else if eq_lit(kw, "section") {
        if ws.len() < 2 {
            return StepResult::Fail(line_msg(ln, "section needs a name", no_chars().as_slice(), ""));
        }
        let bars = if ws.len() < 3 {
            None
        } else {
            parse_u32(ws[2].as_slice())
        };
        match bars {
            None => StepResult::Fail(line_msg(ln, "section needs a bar count", no_chars().as_slice(), "")),
            Some(bars) => {
                let (phases, fill) = section_opts_exec(ws, 3, bars);
                let name = string_of(ws[1].as_slice());
                let sec = Section::empty(name, bars, phases, fill);
                let ghost before = st.sections@;
                st.sections.push(sec);
                proof {
                    assert(sections_view(st.sections@) =~= sections_view(before).push(
                        st.sections@[before.len() as int]@,
                    ));
                    assert forall|j: int| 0 <= j < st.sections@.len() implies (#[trigger] st.sections@[j]).wf() by {
                        if j < before.len() {
                            assert(st.sections@[j] == before[j]);
                        }
                    }
                    assert(st@ =~= Draft {
                        sections: old(st)@.sections.push(fresh_section(rest[0], bars, phases@, fill)),
                        ..old(st)@
                    });
                }
                StepResult::Next
            },
        }
    } else if eq_lit(kw, "chords") {
        match read_chords_exec(ws, 1) {
            ChordsRead::Chords(cs) => {
                let ghost c0 = st.chords@;
                let mut k: usize = 0;
                while k < cs.len()
                    invariant
                        k <= cs@.len(),
                        st.chords@ == c0 + cs@.take(k as int),
                        st.bpm == old(st).bpm,
                        st.sections == old(st).sections,
                        st.params == old(st).params,
                        c0 == old(st).chords@,
                    decreases cs@.len() - k,
                {
                    st.chords.push(cs[k]);
                    k += 1;
                    assert(st.chords@ =~= c0 + cs@.take(k as int));
                }
                assert(cs@.take(k as int) =~= cs@);
                assert(st@ =~= Draft { chords: old(st)@.chords + cs@, ..old(st)@ });
                StepResult::Next
            },
            ChordsRead::BadTok(k) => StepResult::Fail(line_msg(ln, "bad chord `", ws[k].as_slice(), "`")),
            ChordsRead::Panics => StepResult::Panics,
        }
    } else if eq_lit(kw, "gain") || eq_lit(kw, "sub") || eq_lit(kw, "mids") {
        read_dyn_exec(st, ln, kw, ws, 1)
    } else if eq_lit(kw, "set") {
        read_knobs_exec(st, ln, None, no_chars().as_slice(), ws, 1)
    } else {
        StepResult::Fail(line_msg(ln, "unknown keyword `", kw, "`"))
    }
}

/// One raw line of the score text.
pub fn read_line_exec(st: &mut ScoreDraft, ln: usize, raw: &[char]) -> (r: StepResult)
    requires
        old(st).wf(),
    ensures
        step_is(r, final(st)@, read_line(old(st)@, ln as nat, raw@)),
        final(st).wf(),
{
    proof {
        reveal(read_line);
    }
    let cut = comment_cut_at(raw);
    let kept = &raw[0..cut];
    assert(kept@ =~= raw@.take(cut as int));
    let (a, b) = trim_bounds(kept);
    let line = &kept[a..b];
    if line.len() == 0 {
        return StepResult::Next;
    }
    let ws = words_vec(line);
    proof {
        crate::text::lemma_trim_first(kept@);
        crate::text::lemma_words_nonempty(line@);
    }
    let first = ws[0].as_slice();
    proof {
        assert(vv(ws@)[0] == first@);
    }
    let d = find_char(first, 0, '.');
    if d < first.len() {
        proof {
            assert(first@[d as int] == '.');
            assert(first@.contains('.'));
        }
        dotted_line_exec(st, ln, line, &ws)
    } else {
        proof {
            assert(!first@.contains('.'));
        }
        keyword_line_exec(st, ln, &ws)
    }
}

/// The outcome of reading a score text.
pub enum ScoreParse {
    Parsed(Score),
    Rejected(String),
    /// the text holds a line the reader cannot take (reading it would panic)
    Panics,
}

/// Sum of the bar counts of the sections.
fn total_bars_of(secs: &Vec<Section>) -> (r: u128)
    ensures
        r == bars_before(sections_view(secs@), secs@.len() as int),
{
    let ghost sv = sections_view(secs@);
    let mut acc: u128 = 0;
    let mut i: usize = 0;
    while i < secs.len()
        invariant
            sv == sections_view(secs@),
            i <= secs@.len(),
            acc == bars_before(sv, i as int),
            acc <= i * 0x1_0000_0000,
        decreases secs@.len() - i,
    {
        proof {
            assert(sv[i as int].bars == secs@[i as int].bars);
        }
        acc = acc + secs[i].bars as u128;
        i += 1;
    }
    acc
}

pub open spec fn parse_is(r: ScoreParse, p: SpecParse) -> bool {
    match p {
        SpecParse::Parsed(sv) => r matches ScoreParse::Parsed(s) && s@ == sv && s.wf(),
        SpecParse::Rejected(m) => r matches ScoreParse::Rejected(x) && x@ == m,
        SpecParse::Panics => r is Panics,
    }
}

/// All lines of a text, in order, from the empty draft.
#[verifier::spinoff_prover]
#[verifier::rlimit(30)]
fn read_text(t: &Vec<char>) -> (r: (StepResult, ScoreDraft))
    ensures
        step_is(r.0, r.1@, read_lines(initial_draft(), lines(t@), 1)),
        r.1.wf(),
{
    let n = t.len();
    let mut d140: Vec<char> = Vec::new();
    d140.push('1');
    d140.push('4');
    d140.push('0');
    proof {
        assert(d140@ =~= seq!['1', '4', '0']);
        crate::numbers::lemma_digits_lit(d140@);
    }
    let mut st = ScoreDraft {
        bpm: NumLit::from_chars(d140.as_slice()),
        chords: Vec::new(),
        sections: Vec::new(),
        params: Params::new(),
    };
    proof {
        assert(st@ =~= initial_draft());
    }
    let ghost goal = read_lines(initial_draft(), lines(t@), 1);
    let mut pos: usize = 0;
    let mut ln: usize = 1;
    assert(t@.skip(0) =~= t@);
    while pos < n
        invariant
            n == t@.len(),
            pos <= n,
            1 <= ln <= pos + 1,
            st.wf(),
            goal == read_lines(initial_draft(), lines(t@), 1),
            goal == read_lines(st@, lines(t@.skip(pos as int)), ln as nat),
        decreases n - pos,
    {
        let e = find_char(t.as_slice(), pos, '\n');
        let end = if e < n && e > pos && t[e - 1] == '\r' {
            e - 1
        } else {
            e
        };
        let ghost ls = lines(t@.skip(pos as int));
        proof {
            lemma_lines_cons(t@, pos as int, e as int);
            if e < n {
                let l = t@.subrange(pos as int, e as int);
                assert(strip_cr(l) =~= t@.subrange(pos as int, end as int));
            } else {
                assert(t@.skip(pos as int) =~= t@.subrange(pos as int, end as int));
            }
            assert(ls[0] == t@.subrange(pos as int, end as int));
        }
        let raw = &t.as_slice()[pos..end];
        let ghost st0 = st@;
        let res = read_line_exec(&mut st, ln, raw);
        match res {
            StepResult::Next => {},
            _ => {
                return (res, st);
            },
        }
        if e < n {
            pos = e + 1;
            proof {
                assert(ls.drop_first() =~= lines(t@.skip(pos as int)));
            }
            if pos < n {
                ln = ln + 1;
            } else {
                proof {
                    assert(t@.skip(pos as int).len() == 0);
                    assert(lines(t@.skip(pos as int)).len() == 0);
                }
            }
        } else {
            pos = n;
            proof {
                assert(t@.skip(pos as int).len() == 0);
                assert(ls.drop_first().len() == 0);
            }
        }
    }
    proof {
        assert(t@.skip(pos as int).len() == 0);
    }
    (StepResult::Next, st)
}

impl Score {
    /// Read a tracker-DSL score text: the score, or the message of the first line that is wrong
    /// (or `no sections defined`), or that the text holds a line the reader cannot take.
    #[verifier::rlimit(60)]
    pub fn parse(text: &str) -> (r: ScoreParse)
        ensures
            parse_is(r, spec_from_str(text@)),
    {
        let t = chars_of(text);
        let (res, st) = read_text(&t);
        match res {
            StepResult::Next => {},
            StepResult::Fail(m) => {
                return ScoreParse::Rejected(m);
            },
            StepResult::Panics => {
                return ScoreParse::Panics;
            },
        }
        if st.sections.len() == 0 {
            return ScoreParse::Rejected(String::from_str("no sections defined"));
        }
        let total = total_bars_of(&st.sections);
        if total > 0xffff_ffff {
            return ScoreParse::Panics;
        }
        let ghost d = st@;
        let score = Score::new(st.bpm, st.chords, st.sections, st.params);
        proof {
            let want = finish(d);
            assert(want matches SpecParse::Parsed(_));
            let wv = want->Parsed_0;
            assert(score@.sections =~= wv.sections);
            assert(score@.chords =~= wv.chords);
            crate::score::lemma_bars_before_same(score@.sections, d.sections, d.sections.len() as int);
            assert(score@.total_bars == wv.total_bars);
            assert(score@ =~= wv);
        }
        ScoreParse::Parsed(score)
    }

    /// Parse a tracker-DSL score (see `to_dsl` for the shape): the score, or the message of the
    /// first line that is wrong.
    pub fn from_str(text: &str) -> (r: Result<Score, String>)
        requires
            !(spec_from_str(text@) is Panics),
        ensures
            match spec_from_str(text@) {
                SpecParse::Parsed(sv) => r matches Ok(s) && s@ == sv && s.wf(),
                SpecParse::Rejected(m) => r matches Err(x) && x@ == m,
                SpecParse::Panics => false,
            },
    {
        match Score::parse(text) {
            ScoreParse::Parsed(s) => Ok(s),
            ScoreParse::Rejected(m) => Err(m),
            ScoreParse::Panics => Err(String::new()),
        }
    }
}

} // verus!
