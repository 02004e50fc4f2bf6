//! Structural lint of parsed sections: human-readable warnings (not errors) for the traps the DSL
//! otherwise hides — a phase/bar-count mismatch, a drum pattern on a phase the section does not
//! have, and melodic `p1`+ phrases (note lanes loop `p0`, so `p1`+ is ignored and a lane with only
//! `p1`+ is silent).
use vstd::prelude::*;
use crate::numbers::{dec, push_chars, push_dec, push_str};
use crate::pattern::LaneV;
use crate::notes::{NoteLane, NoteLaneV, phrase_has_note, phrase_view};
use crate::section::{Section, SectionV, phase_total_fits, psum};
use crate::score::sections_view;

verus! {

pub open spec fn declared_bars(s: SectionV) -> int {
    psum(s.phases, s.phases.len() as int) + (if s.fill {
        1int
    } else {
        0int
    })
}

#[verifier::opaque]
pub open spec fn bars_warning(s: SectionV) -> Seq<char> {
    "section `"@ + s.name + "`: "@ + dec(s.bars as nat) + " bars but phases"@ + (if s.fill {
        " + fill"@
    } else {
        ""@
    }) + " sum to "@ + dec(declared_bars(s) as nat)
        + " — the extra/missing bars repeat the last phase (likely a typo)"@
}

#[verifier::opaque]
pub open spec fn drum_warning(s: SectionV, inst: Seq<char>, l: LaneV) -> Seq<Seq<char>> {
    if l.phases.len() > s.phases.len() {
        seq![
            "`"@ + s.name + "."@ + inst + "`: defines p"@ + dec((l.phases.len() - 1) as nat)
                + " but section `"@ + s.name + "` has only "@ + dec(s.phases.len())
                + " phase(s) — that pattern never plays"@,
        ]
    } else {
        seq![]
    }
}

#[verifier::opaque]
pub open spec fn melodic_warnings(s: SectionV, lname: Seq<char>, l: NoteLaneV) -> Seq<Seq<char>> {
    let ignored = exists|k: int| 1 <= k < l.phases.len() && phrase_has_note(#[trigger] l.phases[k]);
    let silent = l.phases.len() > 1 && !phrase_has_note(l.phases[0]);
    (if ignored {
        seq![
            "`"@ + s.name + "."@ + lname
                + "`: p1+ phrases are ignored — melodic lanes loop p0 continuously across the section"@,
        ]
    } else {
        seq![]
    }) + (if silent {
        seq![
            "`"@ + s.name + "."@ + lname
                + "`: no p0 phrase (only p1+), so the lane is SILENT — melodic lanes play p0; rename your phrase to p0"@,
        ]
    } else {
        seq![]
    })
}

/// A drum lane is warned about exactly when it defines a phase the section does not have (its
/// highest `p<N>` is at or past the section's phase count): then one warning, naming the lane and
/// that phase; otherwise none.
pub proof fn lemma_drum_warning_when(s: SectionV, inst: Seq<char>, l: LaneV)
    ensures
        drum_warning(s, inst, l).len() == (if l.phases.len() > s.phases.len() {
            1int
        } else {
            0int
        }),
        l.phases.len() > s.phases.len() ==> drum_warning(s, inst, l)[0] == "`"@ + s.name + "."@
            + inst + "`: defines p"@ + dec((l.phases.len() - 1) as nat) + " but section `"@ + s.name
            + "` has only "@ + dec(s.phases.len()) + " phase(s) — that pattern never plays"@,
{
    reveal(drum_warning);
}

/// The warnings of a section: one for a bar count its phases (and fill bar) do not add up to, one
/// for each drum lane defining a phase the section does not have, then the melodic ones.
pub proof fn lemma_section_warning_count(s: SectionV)
    ensures
        section_warnings(s).len() == (if declared_bars(s) != s.bars {
            1int
        } else {
            0int
        }) + (if s.kick.phases.len() > s.phases.len() {
            1int
        } else {
            0int
        }) + (if s.snare.phases.len() > s.phases.len() {
            1int
        } else {
            0int
        }) + (if s.hat.phases.len() > s.phases.len() {
            1int
        } else {
            0int
        }) + (if s.stab.phases.len() > s.phases.len() {
            1int
        } else {
            0int
        }) + melodic_warnings(s, "lead"@, s.lead).len() + melodic_warnings(s, "arp"@, s.arp).len()
            + melodic_warnings(s, "bass"@, s.bass).len(),
{
    lemma_drum_warning_when(s, "kick"@, s.kick);
    lemma_drum_warning_when(s, "snare"@, s.snare);
    lemma_drum_warning_when(s, "hat"@, s.hat);
    lemma_drum_warning_when(s, "stab"@, s.stab);
}

/// The warnings of one section, in order: bar count, the four drum lanes, the three note lanes.
pub open spec fn section_warnings(s: SectionV) -> Seq<Seq<char>> {
    (if declared_bars(s) != s.bars {
        seq![bars_warning(s)]
    } else {
        seq![]
    }) + drum_warning(s, "kick"@, s.kick) + drum_warning(s, "snare"@, s.snare) + drum_warning(
        s,
        "hat"@,
        s.hat,
    ) + drum_warning(s, "stab"@, s.stab) + melodic_warnings(s, "lead"@, s.lead) + melodic_warnings(
        s,
        "arp"@,
        s.arp,
    ) + melodic_warnings(s, "bass"@, s.bass)
}

/// All warnings, section by section.
pub open spec fn spec_validate(secs: Seq<SectionV>) -> Seq<Seq<char>>
    decreases secs.len(),
{
    if secs.len() == 0 {
        seq![]
    } else {
        spec_validate(secs.drop_last()) + section_warnings(secs.last())
    }
}

pub open spec fn strings_of(v: Seq<String>) -> Seq<Seq<char>> {
    v.map_values(|s: String| s@)
}

fn push_warning(out: &mut Vec<String>, w: String)
    ensures
        strings_of(final(out)@) == strings_of(old(out)@).push(w@),
{
    let ghost wv = w@;
    out.push(w);
    assert(strings_of(out@) =~= strings_of(old(out)@).push(wv));
}

fn melodic_check(out: &mut Vec<String>, s: &Section, lname: &str, l: &NoteLane)
    ensures
        strings_of(final(out)@) == strings_of(old(out)@) + melodic_warnings(s@, lname@, l@),
{
    reveal(melodic_warnings);
    let ghost lv = l@;
    let mut ignored = false;
    let mut k: usize = 1;
    while k < l.phases.len()
        invariant
            1 <= k <= l.phases@.len() || (l.phases@.len() == 0 && k == 1),
            lv == l@,
            ignored == exists|j: int| 1 <= j < k && j < lv.phases.len() && phrase_has_note(
                #[trigger] lv.phases[j],
            ),
        decreases l.phases@.len() - k,
    {
        let a = NoteLane::any(&l.phases[k]);
        proof {
            assert(lv.phases[k as int] == phrase_view(l.phases@[k as int]@));
        }
        if a {
            ignored = true;
        }
        k += 1;
    }
    let silent = l.phases.len() > 1 && !NoteLane::any(&l.phases[0]);
    proof {
        if l.phases@.len() > 1 {
            assert(lv.phases[0] == phrase_view(l.phases@[0]@));
        }
    }
    let name = crate::text::chars_of(s.name.as_str());
    let ghost o = strings_of(out@);
    if ignored {
        let mut m = String::new();
        push_str(&mut m, "`");
        push_chars(&mut m, name.as_slice());
        push_str(&mut m, ".");
        push_str(&mut m, lname);
        push_str(
            &mut m,
            "`: p1+ phrases are ignored — melodic lanes loop p0 continuously across the section",
        );
        push_warning(out, m);
    }
    if silent {
        let mut m = String::new();
        push_str(&mut m, "`");
        push_chars(&mut m, name.as_slice());
        push_str(&mut m, ".");
        push_str(&mut m, lname);
        push_str(
            &mut m,
            "`: no p0 phrase (only p1+), so the lane is SILENT — melodic lanes play p0; rename your phrase to p0",
        );
        push_warning(out, m);
    }
    proof {
        assert(strings_of(out@) =~= o + melodic_warnings(s@, lname@, l@));
    }
}

fn bars_check(out: &mut Vec<String>, s: &Section)
    requires
        phase_total_fits(s@),
    ensures
        strings_of(final(out)@) == strings_of(old(out)@) + (if declared_bars(s@) != s@.bars {
            seq![bars_warning(s@)]
        } else {
            seq![]
        }),
{
    reveal(bars_warning);
    let ghost o = strings_of(out@);
    let total = s.phase_total();
    let declared: u64 = (total as u64) + (if s.fill {
        1u64
    } else {
        0u64
    });
    if declared != s.bars as u64 {
        let name = crate::text::chars_of(s.name.as_str());
        let mut m = String::new();
        push_str(&mut m, "section `");
        push_chars(&mut m, name.as_slice());
        push_str(&mut m, "`: ");
        push_dec(&mut m, s.bars as u64);
        push_str(&mut m, " bars but phases");
        if s.fill {
            push_str(&mut m, " + fill");
        } else {
            push_str(&mut m, "");
        }
        push_str(&mut m, " sum to ");
        push_dec(&mut m, declared);
        push_str(&mut m, " — the extra/missing bars repeat the last phase (likely a typo)");
        let ghost mv = m@;
        push_warning(out, m);
        proof {
            assert(mv =~= bars_warning(s@));
            assert(strings_of(out@) =~= o + seq![bars_warning(s@)]);
        }
    } else {
        assert(strings_of(out@) =~= o + Seq::<Seq<char>>::empty());
    }
}

/// The warnings of one section.
pub fn section_check(out: &mut Vec<String>, s: &Section)
    requires
        phase_total_fits(s@),
    ensures
        strings_of(final(out)@) == strings_of(old(out)@) + section_warnings(s@),
{
    let ghost o = strings_of(out@);
    bars_check(out, s);
    let ghost o1 = strings_of(out@);
    drum_check_any(out, s, "kick", &s.kick);
    let ghost o2 = strings_of(out@);
    drum_check_any(out, s, "snare", &s.snare);
    let ghost o3 = strings_of(out@);
    drum_check_any(out, s, "hat", &s.hat);
    let ghost o4 = strings_of(out@);
    drum_check_any(out, s, "stab", &s.stab);
    let ghost o5 = strings_of(out@);
    melodic_check(out, s, "lead", &s.lead);
    let ghost o6 = strings_of(out@);
    melodic_check(out, s, "arp", &s.arp);
    let ghost o7 = strings_of(out@);
    melodic_check(out, s, "bass", &s.bass);
    proof {
        let b = if declared_bars(s@) != s@.bars {
            seq![bars_warning(s@)]
        } else {
            seq![]
        };
        let d1 = drum_warning(s@, "kick"@, s@.kick);
        let d2 = drum_warning(s@, "snare"@, s@.snare);
        let d3 = drum_warning(s@, "hat"@, s@.hat);
        let d4 = drum_warning(s@, "stab"@, s@.stab);
        let m1 = melodic_warnings(s@, "lead"@, s@.lead);
        let m2 = melodic_warnings(s@, "arp"@, s@.arp);
        let m3 = melodic_warnings(s@, "bass"@, s@.bass);
        assert(strings_of(out@) == o + b + d1 + d2 + d3 + d4 + m1 + m2 + m3);
        assert(o + b + d1 + d2 + d3 + d4 + m1 + m2 + m3 =~= o + (b + d1 + d2 + d3 + d4 + m1 + m2 + m3));
    }
}

fn drum_check_any(out: &mut Vec<String>, s: &Section, inst: &str, l: &crate::pattern::Lane)
    ensures
        strings_of(final(out)@) == strings_of(old(out)@) + drum_warning(s@, inst@, l@),
{
    reveal(drum_warning);
    if l.phases.len() > s.phases.len() {
        let name = crate::text::chars_of(s.name.as_str());
        let mut m = String::new();
        push_str(&mut m, "`");
        push_chars(&mut m, name.as_slice());
        push_str(&mut m, ".");
        push_str(&mut m, inst);
        push_str(&mut m, "`: defines p");
        push_dec(&mut m, (l.phases.len() - 1) as u64);
        push_str(&mut m, " but section `");
        push_chars(&mut m, name.as_slice());
        push_str(&mut m, "` has only ");
        push_dec(&mut m, s.phases.len() as u64);
        push_str(&mut m, " phase(s) — that pattern never plays");
        let ghost mv = m@;
        push_warning(out, m);
        proof {
            assert(l@.phases.len() == l.phases@.len());
            assert(mv =~= drum_warning(s@, inst@, l@)[0]);
            assert(strings_of(old(out)@).push(mv) =~= strings_of(old(out)@) + drum_warning(
                s@,
                inst@,
                l@,
            ));
        }
    } else {
        assert(strings_of(old(out)@) + drum_warning(s@, inst@, l@) =~= strings_of(old(out)@));
    }
}

/// Structural lint of the parsed sections — human-readable warnings, in section order.
pub fn validate(sections: &Vec<Section>) -> (r: Vec<String>)
    requires
        forall|i: int| 0 <= i < sections@.len() ==> phase_total_fits(#[trigger] sections@[i]@),
    ensures
        strings_of(r@) == spec_validate(sections_view(sections@)),
{
    let ghost sv = sections_view(sections@);
    let mut w: Vec<String> = Vec::new();
    let mut i: usize = 0;
    while i < sections.len()
        invariant
            sv == sections_view(sections@),
            i <= sections@.len(),
            forall|k: int| 0 <= k < sections@.len() ==> phase_total_fits(#[trigger] sections@[k]@),
            strings_of(w@) == spec_validate(sv.take(i as int)),
        decreases sections@.len() - i,
    {
        section_check(&mut w, &sections[i]);
        proof {
            assert(sv.take(i + 1).drop_last() =~= sv.take(i as int));
            assert(sv.take(i + 1).last() == sections@[i as int]@);
        }
        i += 1;
    }
    proof {
        assert(sv.take(i as int) =~= sv);
    }
    w
}

} // verus!
