//! Writing a score back as tracker-DSL text — a ready-to-edit file that reads back through
//! `Score::from_str`. Numbers are written as the literals the score holds.
use vstd::prelude::*;
use crate::numbers::{dec, push_char, push_chars, push_dec, push_str};
use crate::pattern::{Lane, LaneV, has_hit, spec_pat_str, pat_str};
use crate::notes::{
    Chord, NoteLane, NoteLaneV, phrase_has_note, phrase_view, push_chord_str, push_notes_phrase,
    spec_chord_str, spec_notes_phrase,
};
use crate::section::{Params, Ramp, Section, SectionV, strings_view};
use crate::score::{Score, ScoreV, sections_view};
use crate::text::chars_of;

verus! {

// ---- joins --------------------------------------------------------------------------------------

/// Chord names separated by single spaces.
pub open spec fn chords_joined(cs: Seq<Chord>) -> Seq<char>
    decreases cs.len(),
{
    if cs.len() == 0 {
        seq![]
    } else if cs.len() == 1 {
        spec_chord_str(cs[0])
    } else {
        chords_joined(cs.drop_last()) + seq![' '] + spec_chord_str(cs.last())
    }
}

/// `k=v` pairs separated by single spaces.
pub open spec fn knobs_joined(ps: Seq<(Seq<char>, Seq<char>)>) -> Seq<char>
    decreases ps.len(),
{
    if ps.len() == 0 {
        seq![]
    } else if ps.len() == 1 {
        ps[0].0 + seq!['='] + ps[0].1
    } else {
        knobs_joined(ps.drop_last()) + seq![' '] + ps.last().0 + seq!['='] + ps.last().1
    }
}

/// Words separated by single spaces.
pub open spec fn words_joined(ws: Seq<Seq<char>>) -> Seq<char>
    decreases ws.len(),
{
    if ws.len() == 0 {
        seq![]
    } else if ws.len() == 1 {
        ws[0]
    } else {
        words_joined(ws.drop_last()) + seq![' '] + ws.last()
    }
}

/// Numbers separated by commas.
pub open spec fn csv(ph: Seq<u32>) -> Seq<char>
    decreases ph.len(),
{
    if ph.len() == 0 {
        seq![]
    } else if ph.len() == 1 {
        dec(ph[0] as nat)
    } else {
        csv(ph.drop_last()) + seq![','] + dec(ph.last() as nat)
    }
}

/// A dynamics value: `v` when both ends are written alike, else `a>b`.
pub open spec fn ramp_text(r: (Seq<char>, Seq<char>)) -> Seq<char> {
    if r.0 == r.1 {
        r.0
    } else {
        r.0 + seq!['>'] + r.1
    }
}

// ---- blocks -------------------------------------------------------------------------------------

pub open spec fn header_block(s: ScoreV) -> Seq<char> {
    "# martin score — tracker DSL. Edit + load with MARTIN_SCORE=<this file>.\n"@ + "bpm "@ + s.bpm
        + "\n"@ + "chords "@ + chords_joined(s.chords) + "\n\n"@
}

pub open spec fn knobs_block(ps: Seq<(Seq<char>, Seq<char>)>) -> Seq<char> {
    if ps.len() == 0 {
        seq![]
    } else {
        "# mix/fx knobs (tune the SOUND here, no recompile — synth reads these).\n"@ + "set "@
            + knobs_joined(ps) + "\n\n"@
    }
}

pub open spec fn section_line(s: SectionV) -> Seq<char> {
    "section "@ + s.name + " "@ + dec(s.bars as nat) + " "@ + csv(s.phases) + (if s.fill {
        " fill"@
    } else {
        ""@
    }) + "\n"@
}

pub open spec fn chords_line(s: SectionV) -> Seq<char> {
    if s.chords.len() > 0 {
        s.name + ".chords: "@ + chords_joined(s.chords) + "\n"@
    } else {
        seq![]
    }
}

pub open spec fn set_line(s: SectionV) -> Seq<char> {
    if s.params.len() > 0 {
        s.name + ".set "@ + knobs_joined(s.params) + "\n"@
    } else {
        seq![]
    }
}

pub open spec fn fx_line(s: SectionV) -> Seq<char> {
    match s.fx {
        Some(fx) => s.name + ".fx: "@ + words_joined(fx) + "\n"@,
        None => seq![],
    }
}

/// The lines of one drum lane: each phase with a hit, then the fill if the section has one and it
/// has a hit.
pub open spec fn drum_phase_lines(name: Seq<char>, inst: Seq<char>, ph: Seq<Seq<bool>>) -> Seq<char>
    decreases ph.len(),
{
    if ph.len() == 0 {
        seq![]
    } else {
        let p = (ph.len() - 1) as nat;
        drum_phase_lines(name, inst, ph.drop_last()) + (if has_hit(ph.last()) {
            name + "."@ + inst + " p"@ + dec(p) + ": "@ + spec_pat_str(ph.last()) + "\n"@
        } else {
            seq![]
        })
    }
}

pub open spec fn drum_lines(s: SectionV, inst: Seq<char>, l: LaneV) -> Seq<char> {
    drum_phase_lines(s.name, inst, l.phases) + (if s.fill && has_hit(l.fill) {
        s.name + "."@ + inst + " fill: "@ + spec_pat_str(l.fill) + "\n"@
    } else {
        seq![]
    })
}

pub open spec fn section_drum_lines(s: SectionV) -> Seq<char> {
    drum_lines(s, "kick"@, s.kick) + drum_lines(s, "snare"@, s.snare) + drum_lines(s, "hat"@, s.hat)
        + drum_lines(s, "stab"@, s.stab)
}

/// The lines of one note lane: each phrase with a note, then the fill if it has one.
pub open spec fn note_phase_lines(
    name: Seq<char>,
    lname: Seq<char>,
    ph: Seq<Seq<Seq<Option<i32>>>>,
) -> Seq<char>
    decreases ph.len(),
{
    if ph.len() == 0 {
        seq![]
    } else {
        let p = (ph.len() - 1) as nat;
        note_phase_lines(name, lname, ph.drop_last()) + (if phrase_has_note(ph.last()) {
            name + "."@ + lname + " p"@ + dec(p) + ": "@ + spec_notes_phrase(ph.last()) + "\n"@
        } else {
            seq![]
        })
    }
}

pub open spec fn note_lines(s: SectionV, lname: Seq<char>, l: NoteLaneV) -> Seq<char> {
    note_phase_lines(s.name, lname, l.phases) + (if phrase_has_note(l.fill) {
        s.name + "."@ + lname + " fill: "@ + spec_notes_phrase(l.fill) + "\n"@
    } else {
        seq![]
    })
}

/// One per-section part of the text, for the first `n` sections.
pub open spec fn per_section(secs: Seq<SectionV>, n: int, part: int) -> Seq<char>
    decreases n,
{
    if n <= 0 {
        seq![]
    } else {
        per_section(secs, n - 1, part) + section_part(secs[n - 1], part)
    }
}

/// Part `part` of a section's text: 0 section line, 1 chords, 2 knobs, 3 fx, 4 drums, 5 lead,
/// 6 arp, 7 bass, 8–10 its gain/sub/mids value.
pub open spec fn section_part(s: SectionV, part: int) -> Seq<char> {
    if part == 0 {
        section_line(s)
    } else if part == 1 {
        chords_line(s)
    } else if part == 2 {
        set_line(s)
    } else if part == 3 {
        fx_line(s)
    } else if part == 4 {
        section_drum_lines(s)
    } else if part == 5 {
        note_lines(s, "lead"@, s.lead)
    } else if part == 6 {
        note_lines(s, "arp"@, s.arp)
    } else if part == 7 {
        note_lines(s, "bass"@, s.bass)
    } else if part == 8 {
        " "@ + s.name + " "@ + ramp_text(s.gain)
    } else if part == 9 {
        " "@ + s.name + " "@ + ramp_text(s.sub)
    } else {
        " "@ + s.name + " "@ + ramp_text(s.mids)
    }
}

pub open spec fn all_sections(s: ScoreV, part: int) -> Seq<char> {
    per_section(s.sections, s.sections.len() as int, part)
}

/// The whole tracker-DSL text of a score.
pub open spec fn spec_to_dsl(s: ScoreV) -> Seq<char> {
    header_block(s) + knobs_block(s.params) + "# section <name> <bars> <phase-bars,csv> [fill]\n"@
        + all_sections(s, 0) + all_sections(s, 1) + all_sections(s, 2) + all_sections(s, 3)
        + "\n# patterns: <section>.<kick|snare|hat|stab> p<N>|fill: 16 steps (x=hit .=rest)\n"@
        + all_sections(s, 4)
        + "\n# melody: <section>.lead p<N>|fill: 16 note slots (A4 C#5 . E5 …; . = rest)\n"@
        + all_sections(s, 5)
        + "\n# arp: <section>.arp p<N>|fill — a second melodic line, same note grammar\n"@
        + all_sections(s, 6)
        + "\n# bass: <section>.bass p<N>|fill — an articulated bassline, same note grammar\n"@
        + all_sections(s, 7)
        + "\n# dynamics 0..1 per section (`v` constant or `a>b` ramp across the section)\n"@
        + "gain"@ + all_sections(s, 8) + "\n"@ + "sub"@ + all_sections(s, 9) + "\n"@ + "mids"@
        + all_sections(s, 10) + "\n"@
}

// ---- exec ---------------------------------------------------------------------------------------

fn push_chords(out: &mut String, cs: &Vec<Chord>)
    ensures
        final(out)@ == old(out)@ + chords_joined(cs@),
{
    let ghost o = out@;
    let mut i: usize = 0;
    while i < cs.len()
        invariant
            i <= cs@.len(),
            out@ == o + chords_joined(cs@.take(i as int)),
        decreases cs@.len() - i,
    {
        if i > 0 {
            push_char(out, ' ');
        }
        push_chord_str(out, &cs[i]);
        proof {
            let t = cs@.take(i + 1);
            assert(t.drop_last() =~= cs@.take(i as int));
            assert(t.last() == cs@[i as int]);
            if i == 0 {
                assert(chords_joined(cs@.take(0)) =~= Seq::<char>::empty());
            }
            assert(out@ =~= o + chords_joined(t));
        }
        i += 1;
    }
    assert(cs@.take(i as int) =~= cs@);
}

fn push_knobs(out: &mut String, ps: &Params)
    ensures
        final(out)@ == old(out)@ + knobs_joined(ps@),
{
    let ghost o = out@;
    let mut i: usize = 0;
    while i < ps.entries.len()
        invariant
            i <= ps@.len(),
            out@ == o + knobs_joined(ps@.take(i as int)),
        decreases ps@.len() - i,
    {
        if i > 0 {
            push_char(out, ' ');
        }
        push_str(out, ps.entries[i].0.as_str());
        push_char(out, '=');
        push_str(out, ps.entries[i].1.text.as_str());
        proof {
            let t = ps@.take(i + 1);
            assert(t.drop_last() =~= ps@.take(i as int));
            assert(t.last() == ps@[i as int]);
            if i == 0 {
                assert(knobs_joined(ps@.take(0)) =~= Seq::<char>::empty());
            }
            assert(out@ =~= o + knobs_joined(t));
        }
        i += 1;
    }
    assert(ps@.take(i as int) =~= ps@);
}

fn push_words(out: &mut String, ws: &Vec<String>)
    ensures
        final(out)@ == old(out)@ + words_joined(strings_view(ws@)),
{
    let ghost o = out@;
    let ghost wv = strings_view(ws@);
    let mut i: usize = 0;
    while i < ws.len()
        invariant
            i <= ws@.len(),
            wv == strings_view(ws@),
            out@ == o + words_joined(wv.take(i as int)),
        decreases ws@.len() - i,
    {
        if i > 0 {
            push_char(out, ' ');
        }
        push_str(out, ws[i].as_str());
        proof {
            let t = wv.take(i + 1);
            assert(t.drop_last() =~= wv.take(i as int));
            assert(t.last() == ws@[i as int]@);
            if i == 0 {
                assert(words_joined(wv.take(0)) =~= Seq::<char>::empty());
            }
            assert(out@ =~= o + words_joined(t));
        }
        i += 1;
    }
    assert(wv.take(i as int) =~= wv);
}

fn push_csv(out: &mut String, ph: &Vec<u32>)
    ensures
        final(out)@ == old(out)@ + csv(ph@),
{
    let ghost o = out@;
    let mut i: usize = 0;
    while i < ph.len()
        invariant
            i <= ph@.len(),
            out@ == o + csv(ph@.take(i as int)),
        decreases ph@.len() - i,
    {
        if i > 0 {
            push_char(out, ',');
        }
        push_dec(out, ph[i] as u64);
        proof {
            let t = ph@.take(i + 1);
            assert(t.drop_last() =~= ph@.take(i as int));
            assert(t.last() == ph@[i as int]);
            if i == 0 {
                assert(csv(ph@.take(0)) =~= Seq::<char>::empty());
            }
            assert(out@ =~= o + csv(t));
        }
        i += 1;
    }
    assert(ph@.take(i as int) =~= ph@);
}

/// A dynamics value: `v` (constant) or `a>b` (a ramp).
pub fn ramp_str(r: &Ramp) -> (s: String)
    ensures
        s@ == ramp_text(r@),
{
    let mut s = String::new();
    if r.a.text == r.b.text {
        push_str(&mut s, r.a.text.as_str());
    } else {
        push_str(&mut s, r.a.text.as_str());
        push_char(&mut s, '>');
        push_str(&mut s, r.b.text.as_str());
    }
    assert(s@ =~= ramp_text(r@));
    s
}

fn push_drum_lines(out: &mut String, s: &Section, inst: &str, l: &Lane)
    ensures
        final(out)@ == old(out)@ + drum_lines(s@, inst@, l@),
{
    let ghost o = out@;
    let ghost lv = l@;
    let name = chars_of(s.name.as_str());
    let mut p: usize = 0;
    while p < l.phases.len()
        invariant
            p <= l.phases@.len(),
            lv == l@,
            name@ == s@.name,
            out@ == o + drum_phase_lines(s@.name, inst@, lv.phases.take(p as int)),
        decreases l.phases@.len() - p,
    {
        let g = &l.phases[p];
        let ghost before = out@;
        if l.any(g) {
            push_chars(out, name.as_slice());
            push_str(out, ".");
            push_str(out, inst);
            push_str(out, " p");
            push_dec(out, p as u64);
            push_str(out, ": ");
            let ps = pat_str(g);
            push_str(out, ps.as_str());
            push_str(out, "\n");
        }
        proof {
            let t = lv.phases.take(p + 1);
            assert(t.drop_last() =~= lv.phases.take(p as int));
            assert(t.last() == g@);
            assert(out@ =~= o + drum_phase_lines(s@.name, inst@, t));
        }
        p += 1;
    }
    assert(lv.phases.take(p as int) =~= lv.phases);
    if s.fill && l.any(&l.fill) {
        push_chars(out, name.as_slice());
        push_str(out, ".");
        push_str(out, inst);
        push_str(out, " fill: ");
        let ps = pat_str(&l.fill);
        push_str(out, ps.as_str());
        push_str(out, "\n");
    }
    assert(out@ =~= o + drum_lines(s@, inst@, l@));
}

fn push_note_lines(out: &mut String, s: &Section, lname: &str, l: &NoteLane)
    ensures
        final(out)@ == old(out)@ + note_lines(s@, lname@, l@),
{
    let ghost o = out@;
    let ghost lv = l@;
    let name = chars_of(s.name.as_str());
    let mut p: usize = 0;
    while p < l.phases.len()
        invariant
            p <= l.phases@.len(),
            lv == l@,
            name@ == s@.name,
            out@ == o + note_phase_lines(s@.name, lname@, lv.phases.take(p as int)),
        decreases l.phases@.len() - p,
    {
        let g = &l.phases[p];
        if NoteLane::any(g) {
            push_chars(out, name.as_slice());
            push_str(out, ".");
            push_str(out, lname);
            push_str(out, " p");
            push_dec(out, p as u64);
            push_str(out, ": ");
            push_notes_phrase(out, g);
            push_str(out, "\n");
        }
        proof {
            let t = lv.phases.take(p + 1);
            assert(t.drop_last() =~= lv.phases.take(p as int));
            assert(t.last() == phrase_view(g@));
            assert(out@ =~= o + note_phase_lines(s@.name, lname@, t));
        }
        p += 1;
    }
    assert(lv.phases.take(p as int) =~= lv.phases);
    if NoteLane::any(&l.fill) {
        push_chars(out, name.as_slice());
        push_str(out, ".");
        push_str(out, lname);
        push_str(out, " fill: ");
        push_notes_phrase(out, &l.fill);
        push_str(out, "\n");
    }
    assert(out@ =~= o + note_lines(s@, lname@, l@));
}

fn push_part(out: &mut String, s: &Section, part: u8)
    requires
        part <= 10,
    ensures
        final(out)@ == old(out)@ + section_part(s@, part as int),
{
    let ghost o = out@;
    if part == 0 {
        push_str(out, "section ");
        push_str(out, s.name.as_str());
        push_str(out, " ");
        push_dec(out, s.bars as u64);
        push_str(out, " ");
        push_csv(out, &s.phases);
        if s.fill {
            push_str(out, " fill");
        } else {
            push_str(out, "");
        }
        push_str(out, "\n");
    } else if part == 1 {
        if s.chords.len() > 0 {
            push_str(out, s.name.as_str());
            push_str(out, ".chords: ");
            push_chords(out, &s.chords);
            push_str(out, "\n");
        }
    } else if part == 2 {
        if s.params.entries.len() > 0 {
            push_str(out, s.name.as_str());
            push_str(out, ".set ");
            push_knobs(out, &s.params);
            push_str(out, "\n");
        }
    } else if part == 3 {
        match &s.fx {
            Some(fx) => {
                push_str(out, s.name.as_str());
                push_str(out, ".fx: ");
                push_words(out, fx);
                push_str(out, "\n");
            },
            None => {},
        }
    } else if part == 4 {
        push_drum_lines(out, s, "kick", &s.kick);
        let ghost o1 = out@;
        push_drum_lines(out, s, "snare", &s.snare);
        let ghost o2 = out@;
        push_drum_lines(out, s, "hat", &s.hat);
        let ghost o3 = out@;
        push_drum_lines(out, s, "stab", &s.stab);
        proof {
            assert(out@ =~= o + section_drum_lines(s@));
        }
    } else if part == 5 {
        push_note_lines(out, s, "lead", &s.lead);
    } else if part == 6 {
        push_note_lines(out, s, "arp", &s.arp);
    } else if part == 7 {
        push_note_lines(out, s, "bass", &s.bass);
    } else {
        push_str(out, " ");
        push_str(out, s.name.as_str());
        push_str(out, " ");
        let r = if part == 8 {
            ramp_str(&s.gain)
        } else if part == 9 {
            ramp_str(&s.sub)
        } else {
            ramp_str(&s.mids)
        };
        push_str(out, r.as_str());
    }
    assert(out@ =~= o + section_part(s@, part as int));
}

fn push_all(out: &mut String, secs: &Vec<Section>, part: u8)
    requires
        part <= 10,
    ensures
        final(out)@ == old(out)@ + per_section(sections_view(secs@), secs@.len() as int, part as int),
{
    let ghost o = out@;
    let ghost sv = sections_view(secs@);
    let mut i: usize = 0;
    while i < secs.len()
        invariant
            i <= secs@.len(),
            sv == sections_view(secs@),
            part <= 10,
            out@ == o + per_section(sv, i as int, part as int),
        decreases secs@.len() - i,
    {
        push_part(out, &secs[i], part);
        proof {
            assert(sv[i as int] == secs@[i as int]@);
            assert(out@ =~= o + per_section(sv, i + 1, part as int));
        }
        i += 1;
    }
}

impl Score {
    /// Serialize back to the tracker DSL — a ready-to-edit starting file that reads back through
    /// `from_str`.
    pub fn to_dsl(&self) -> (r: String)
        ensures
            r@ == spec_to_dsl(self@),
    {
        let mut o = String::new();
        push_str(&mut o, "# martin score — tracker DSL. Edit + load with MARTIN_SCORE=<this file>.\n");
        push_str(&mut o, "bpm ");
        push_str(&mut o, self.bpm.text.as_str());
        push_str(&mut o, "\n");
        push_str(&mut o, "chords ");
        push_chords(&mut o, &self.chords);
        push_str(&mut o, "\n\n");
        let ghost h = o@;
        assert(h =~= header_block(self@));
        if !self.params.is_empty() {
            push_str(&mut o, "# mix/fx knobs (tune the SOUND here, no recompile — synth reads these).\n");
            push_str(&mut o, "set ");
            push_knobs(&mut o, &self.params);
            push_str(&mut o, "\n\n");
        }
        assert(o@ =~= h + knobs_block(self@.params));
        push_str(&mut o, "# section <name> <bars> <phase-bars,csv> [fill]\n");
        push_all(&mut o, &self.sections, 0);
        push_all(&mut o, &self.sections, 1);
        push_all(&mut o, &self.sections, 2);
        push_all(&mut o, &self.sections, 3);
        push_str(
            &mut o,
            "\n# patterns: <section>.<kick|snare|hat|stab> p<N>|fill: 16 steps (x=hit .=rest)\n",
        );
        push_all(&mut o, &self.sections, 4);
        push_str(
            &mut o,
            "\n# melody: <section>.lead p<N>|fill: 16 note slots (A4 C#5 . E5 …; . = rest)\n",
        );
        push_all(&mut o, &self.sections, 5);
        push_str(&mut o, "\n# arp: <section>.arp p<N>|fill — a second melodic line, same note grammar\n");
        push_all(&mut o, &self.sections, 6);
        push_str(
            &mut o,
            "\n# bass: <section>.bass p<N>|fill — an articulated bassline, same note grammar\n",
        );
        push_all(&mut o, &self.sections, 7);
        push_str(
            &mut o,
            "\n# dynamics 0..1 per section (`v` constant or `a>b` ramp across the section)\n",
        );
        push_str(&mut o, "gain");
        push_all(&mut o, &self.sections, 8);
        push_str(&mut o, "\n");
        push_str(&mut o, "sub");
        push_all(&mut o, &self.sections, 9);
        push_str(&mut o, "\n");
        push_str(&mut o, "mids");
        push_all(&mut o, &self.sections, 10);
        push_str(&mut o, "\n");
        assert(o@ =~= spec_to_dsl(self@));
        o
    }
}

} // verus!
