use martin::anchor::Anchor;
use martin::music::{after_prerendered_read, music_step, synth_plan, MusicEvent, MusicState, SynthPlan};
use martin::notes::{chord_str, note_name, Chord};
use martin::parse::ScoreParse;
use martin::pattern::{parse_pattern, pat_str, Inst, Lane};
use martin::score::{Score, Voice};
use martin::section::{default_fx, Section};
use martin::validate::validate;

fn chars(s: &str) -> Vec<char> {
    s.chars().collect()
}

fn lit(n: Option<&martin::numbers::NumLit>) -> Option<String> {
    n.map(|x| x.text.clone())
}

// ---- notes, phrases and per-section settings ----------------------------------------------------

#[test]
fn sharp_notes_parse_and_real_comments_still_strip() {
    // `#` is the comment char, but a mid-token `#` (the note F#5 / chord F#) must NOT be eaten —
    // and a genuine trailing `# comment` must still be stripped (else the lead line mis-counts).
    let dsl = "bpm 120\n\
               chords F#\n\
               section a 4 4\n\
               a.lead p0: F#5 . . .  . . . .  . . . .  . . . .   # trailing comment with # inside\n";
    assert!(
        Score::from_str(dsl).is_ok(),
        "F#5 + a trailing comment should parse"
    );
    // a leading-`#` line is a comment (ignored); a bad note still errors.
    assert!(Score::from_str(
        "bpm 120\nchords G\nsection a 4 4\na.lead p0: Z9 . . . . . . . . . . . . . . .\n"
    )
    .is_err());
}

#[test]
fn multi_bar_lead_phrase_advances_and_loops() {
    // a 2-bar phrase (32 tokens): bar0 has C5 at slot 0, bar1 has E5 at slot 0. Over a 4-bar
    // section the lead should play C5, E5, C5, E5 at each bar's downbeat (the phrase loops).
    let dsl = "bpm 120\nchords C\nsection a 4 4\n\
               a.lead p0: C5 . . . . . . . . . . . . . . .  E5 . . . . . . . . . . . . . . .\n";
    let s = Score::from_str(dsl).unwrap();
    let notes = s.lead_notes();
    assert_eq!(notes.len(), 4, "4 downbeat notes over 4 bars");
    let pitch = |m: i32| match m {
        72 => 'C',
        76 => 'E',
        _ => '?',
    };
    let seq: String = notes.iter().map(|&(_, m)| pitch(m)).collect();
    assert_eq!(seq, "CECE", "the phrase advances per bar and loops");
    // and the bar onsets line up with the grid: the second note is one bar (16 slots) in.
    assert_eq!(notes[1].0, 16);
}

#[test]
fn single_bar_lead_still_repeats_every_bar() {
    // a 1-bar phrase plays the same bar every bar.
    let dsl = "bpm 120\nchords C\nsection a 3 3\na.lead p0: G5 . . . . . . . . . . . . . . .\n";
    let s = Score::from_str(dsl).unwrap();
    assert_eq!(s.lead_notes().len(), 3); // G5 on every one of the 3 bars
}

#[test]
fn validate_flags_phase_mismatch_and_ignored_melodic_phases() {
    // 8-bar section but phases 4,4 + fill = 9 (mismatch); a lead phrase written as p1 (no p0) is
    // both "p1+ ignored" AND "silent". All are WARNINGS — the score still parses.
    let dsl = "bpm 120\nchords C\nsection a 8 4,4 fill\n\
               a.kick p5: x... .... .... ....\n\
               a.lead p1: C5 . . . . . . . . . . . . . . .\n";
    let s = Score::from_str(dsl).expect("warnings, not errors — still parses");
    let w = validate(&s.sections);
    assert!(
        w.iter().any(|m| m.contains("bars but phases")),
        "phase/bar mismatch flagged: {w:?}"
    );
    assert!(
        w.iter().any(|m| m.contains(".kick`: defines p5")),
        "out-of-range drum phase flagged: {w:?}"
    );
    assert!(
        w.iter().any(|m| m.contains("p1+ phrases are ignored")),
        "ignored melodic phase flagged: {w:?}"
    );
    assert!(
        w.iter().any(|m| m.contains("SILENT")),
        "silent (p1-only) melodic lane flagged: {w:?}"
    );
}

#[test]
fn per_section_set_overrides_the_global_knob_and_round_trips() {
    let dsl = "bpm 120\nchords C\nsection intro 2 2\nsection drop 2 2\n\
               set house=0.1\ndrop.set house=0.3 lead=0.9\n";
    let s = Score::from_str(dsl).unwrap();
    assert_eq!(lit(s.param("house")), Some("0.1".to_string()), "global house = 0.1");
    assert_eq!(
        lit(s.param_in(0, "house")),
        Some("0.1".to_string()),
        "intro falls back to the global 0.1"
    );
    assert_eq!(
        lit(s.param_in(1, "house")),
        Some("0.3".to_string()),
        "drop overrides house to 0.3"
    );
    assert_eq!(
        lit(s.param_in(1, "lead")),
        Some("0.9".to_string()),
        "drop also overrides lead"
    );
    // the override survives a to_dsl → from_str round-trip.
    let s2 = Score::from_str(&s.to_dsl()).unwrap();
    assert_eq!(
        lit(s2.param_in(1, "house")),
        Some("0.3".to_string()),
        "the per-section override round-trips through to_dsl"
    );
}

#[test]
fn per_section_fx_list_overrides_the_name_defaults_and_round_trips() {
    // no `fx:` line → the built-in name-based defaults (a drop gets the wall + jet, not casio).
    let plain = Score::from_str("bpm 120\nchords C\nsection drop 4 4\n").unwrap();
    assert!(plain.fx_on("drop", "wall"));
    assert!(plain.fx_on("drop", "jet"));
    assert!(!plain.fx_on("drop", "casio"));
    // an explicit `<section>.fx:` line is authoritative: keep the wall, drop the jet.
    let custom =
        Score::from_str("bpm 120\nchords C\nsection drop 4 4\ndrop.fx: wall house\n").unwrap();
    assert!(custom.fx_on("drop", "wall"));
    assert!(custom.fx_on("drop", "house"));
    assert!(
        !custom.fx_on("drop", "jet"),
        "explicit fx list omits the jet"
    );
    // round-trips through to_dsl.
    let s2 = Score::from_str(&custom.to_dsl()).unwrap();
    assert!(s2.fx_on("drop", "wall") && !s2.fx_on("drop", "jet"));
}

// ---- the timeline ------------------------------------------------------------------------------

#[test]
fn section_starts_are_monotonic_and_first_is_zero() {
    let s = Score::from_str("bpm 120\nsection a 4 4\nsection b 2 2\nsection c 3 3\n").unwrap();
    assert_eq!(s.sections[0].start_bar, 0);
    let mut prev = 0;
    for sec in &s.sections {
        assert!(sec.start_bar >= prev, "sections must be in order");
        prev = sec.start_bar;
    }
    assert_eq!(s.section_start_bar(0), 0);
    let starts: Vec<u32> = s.sections.iter().map(|x| x.start_bar).collect();
    assert_eq!(starts, vec![0, 4, 6]);
    assert_eq!(s.total_bars(), 9);
    assert_eq!(s.section_index_at_bar(0), 0);
    assert_eq!(s.section_index_at_bar(5), 1);
    assert_eq!(s.section_index_at_bar(6), 2);
    assert_eq!(s.section_index_at_bar(100), 2);
}

#[test]
fn per_section_chords_override_the_global_progression() {
    // global = G major everywhere; the `verse` section flips to an A-minor `chords:` line. The
    // chord at the verse's time must be the section's (minor), not the global (major).
    let dsl = "bpm 120\nchords G\n\
               section intro 2 2\nsection verse 2 2\n\
               verse.chords: Am\n";
    let s = Score::from_str(dsl).unwrap();
    // a time in seconds falls in bar `t / bar`, with a bar of 4 beats of 60 / bpm seconds
    let bar_secs = 4.0f32 * 60.0 / 120.0;
    let bar_of = |t: f32| (t / bar_secs).floor() as u32;
    let intro = s.chord_at_bar(bar_of(0.1));
    let verse = s.chord_at_bar(bar_of(s.section_start_bar(1) as f32 * bar_secs + 0.1));
    assert!(!intro.minor, "intro uses the global G major");
    assert_eq!(intro.root, 55);
    assert!(verse.minor, "verse uses its own A-minor override");
    assert_eq!(verse.root, 57, "verse root is A3, not the global G");
}

#[test]
fn global_chords_cycle_per_bar_and_default_to_a_minor() {
    let s = Score::from_str("section a 4 4\n").unwrap();
    assert_eq!(s.chords, vec![Chord { root: 57, minor: true }]);
    let s = Score::from_str("chords C G\nsection a 4 4\n").unwrap();
    assert_eq!(s.chord_at_bar(0).root, 48);
    assert_eq!(s.chord_at_bar(1).root, 55);
    assert_eq!(s.chord_at_bar(2).root, 48);
}

#[test]
fn drum_hits_are_ordered_and_in_range() {
    let dsl = "bpm 120\nsection a 2 2\nsection b 2 1,1\n\
               a.kick p0: x... x... x... x...\n\
               b.kick p0: x... .... .... ....\n\
               b.kick p1: .... .... x... ....\n";
    let s = Score::from_str(dsl).unwrap();
    let hits = s.hit_slots(Inst::Kick);
    assert_eq!(hits, vec![0, 4, 8, 12, 16, 20, 24, 28, 32, 56]);
    assert!(hits.windows(2).all(|w| w[0] < w[1]), "hits in time order");
    assert!(hits.iter().all(|&t| t < s.total_bars() as u64 * 16));
    assert!(s.hit_slots(Inst::Snare).is_empty());
}

#[test]
fn fill_bar_plays_the_fill_pattern() {
    let dsl = "section a 3 2 fill\n\
               a.hat p0: x... .... .... ....\n\
               a.hat fill: xxxx xxxx xxxx xxxx\n";
    let s = Score::from_str(dsl).unwrap();
    let hits = s.hit_slots(Inst::Hat);
    let expect: Vec<u64> = vec![0, 16].into_iter().chain(32..48).collect();
    assert_eq!(hits, expect);
    assert_eq!(s.sections[0].phase_and_offset(0), (0, 0));
    assert_eq!(s.sections[0].phase_and_offset(1), (0, 1));
    assert_eq!(s.sections[0].phase_and_offset(2), (255, 0));
}

#[test]
fn phase_and_offset_walks_the_phase_spans() {
    let s = Score::from_str("section a 9 4,3\n").unwrap();
    let sec = &s.sections[0];
    assert_eq!(sec.phase_and_offset(0), (0, 0));
    assert_eq!(sec.phase_and_offset(3), (0, 3));
    assert_eq!(sec.phase_and_offset(4), (1, 0));
    assert_eq!(sec.phase_and_offset(6), (1, 2));
    // past the defined phases: the last phase, counted from its start.
    assert_eq!(sec.phase_and_offset(8), (1, 4));
    assert_eq!(sec.phase_at(8), 1);
}

#[test]
fn undefined_drum_phase_is_silent() {
    let mut lane = Lane::empty();
    lane.phases.push([true; 16]);
    assert_eq!(lane.at(0), [true; 16]);
    assert_eq!(lane.at(1), [false; 16]);
    assert_eq!(lane.at(255), [false; 16]);
    assert!(lane.any(&[true; 16]));
    assert!(!lane.any(&[false; 16]));
}

#[test]
fn arp_and_bass_lines_read_their_own_lanes() {
    let dsl = "section a 1 1\n\
               a.arp p0: A4 . . . . . . . . . . . . . . B4\n\
               a.bass p0: . . . . C2 . . . . . . . . . . .\n";
    let s = Score::from_str(dsl).unwrap();
    assert_eq!(s.arp_notes(), vec![(0, 69), (15, 71)]);
    assert_eq!(s.bass_notes(), vec![(4, 36)]);
    assert!(s.lead_notes().is_empty());
    assert_eq!(s.note_at_slot(Voice::Arp, 15), Some(71));
}

// ---- reading ------------------------------------------------------------------------------------

#[test]
fn reader_errors_name_the_line() {
    let cases: Vec<(&str, &str)> = vec![
        ("section a 4\nb.set x=1\n", "line 2: unknown section `b`"),
        ("section a 4\na.set x\n", "line 2: `a.set` needs key=value, got `x`"),
        ("section a 4\na.set x=y\n", "line 2: bad set value `x=y`"),
        ("section a 4\na.kick p0 x...\n", "line 2: pattern needs a ':'"),
        ("section a 4\nak:x.y\n", "line 2: expected `section.inst`, got `ak`"),
        ("section a 4\nb.kick: x... .... .... ....\n", "line 2: unknown section `b`"),
        ("section a 4\na.kick q: x... .... .... ....\n", "line 2: bad phase `q`"),
        ("section a 4\na.chords: Am H\n", "line 2: bad chord `H`"),
        ("section a 4\na.lead: A4\n", "line 2: lead needs 16 notes/rests (or a multiple of 16)"),
        ("section a 4\na.kick: x...\n", "line 2: pattern must be 16 of x/."),
        ("section a 4\na.tom: x... .... .... ....\n", "line 2: unknown instrument `tom`"),
        ("bpm fast\n", "line 1: bpm needs a number"),
        ("section\n", "line 1: section needs a name"),
        ("section a x\n", "line 1: section needs a bar count"),
        ("chords Am Q\n", "line 1: bad chord `Q`"),
        ("section a 4\ngain b 0.5\n", "line 2: unknown section `b`"),
        ("section a 4\ngain a loud\n", "line 2: bad value `loud`"),
        ("set x\n", "line 1: `set` needs key=value, got `x`"),
        ("set x=y\n", "line 1: bad set value `x=y`"),
        ("\n\n# c\ntempo 1\n", "line 4: unknown keyword `tempo`"),
        ("bpm 120\n", "no sections defined"),
    ];
    for (text, msg) in cases {
        match Score::from_str(text) {
            Err(m) => assert_eq!(m, msg, "for {text:?}"),
            Ok(_) => panic!("{text:?} should be rejected"),
        }
    }
}

#[test]
fn unreadable_lines_are_reported_as_panics() {
    // a pattern line without a target before its ':'
    assert!(matches!(Score::parse("section a 4\n:a.b x\n"), ScoreParse::Panics));
    // a note whose octave overflows the pitch arithmetic
    assert!(matches!(
        Score::parse("section a 4\na.lead p0: C2147483647 . . . . . . . . . . . . . . .\n"),
        ScoreParse::Panics
    ));
    // a phase index that cannot be extended to
    assert!(matches!(
        Score::parse(&format!("section a 4\na.kick p{}: x... .... .... ....\n", usize::MAX)),
        ScoreParse::Panics
    ));
    // bar counts whose total leaves u32
    assert!(matches!(
        Score::parse("section a 4294967295\nsection b 1\n"),
        ScoreParse::Panics
    ));
}

#[test]
fn numbers_read_leading_dot_and_keep_their_text() {
    let s = Score::from_str("bpm .5e2\nsection a 4\ngain a .85>1\nsub a 0.25\n").unwrap();
    assert_eq!(s.bpm.text, ".5e2");
    assert_eq!(s.sections[0].gain.a.text, ".85");
    assert_eq!(s.sections[0].gain.b.text, "1");
    assert_eq!(s.sections[0].sub.a.text, "0.25");
    assert_eq!(s.sections[0].sub.b.text, "0.25");
    // a bare `.` reads as 0
    let s = Score::from_str("section a 4\nmids a .\n").unwrap();
    assert_eq!(s.sections[0].mids.a.text, "0.");
    // defaults
    let s = Score::from_str("section a 4\n").unwrap();
    assert_eq!(s.bpm.text, "140");
    assert_eq!(s.sections[0].gain.a.text, "0.85");
    assert_eq!(s.sections[0].sub.a.text, "0.5");
    assert_eq!(s.sections[0].mids.a.text, "0.6");
}

#[test]
fn section_options_read_fill_and_phase_lists() {
    let s = Score::from_str("section a 9 x,4,,5 FILL 2,y\nsection b 4 junk\n").unwrap();
    assert_eq!(s.sections[0].phases, vec![2]);
    assert!(s.sections[0].fill);
    assert_eq!(s.sections[1].phases, vec![4]);
    assert!(!s.sections[1].fill);
}

#[test]
fn crlf_lines_and_later_knobs_replace_earlier_ones() {
    let s = Score::from_str("section a 4\r\nset k=1 j=2\r\nset k=3\r\n").unwrap();
    assert_eq!(lit(s.param("k")), Some("3".to_string()));
    assert_eq!(lit(s.param("j")), Some("2".to_string()));
    assert_eq!(lit(s.param("x")), None);
    let keys: Vec<String> = s.params.entries.iter().map(|e| e.0.clone()).collect();
    assert_eq!(keys, vec!["j".to_string(), "k".to_string()]);
}

// ---- writing ------------------------------------------------------------------------------------

#[test]
fn to_dsl_writes_the_documented_shape() {
    let s = Score::from_str(
        "bpm 128\nchords Am F\nsection intro 2 1,1 fill\nintro.kick p0: x... x... x... x...\n\
         intro.lead p0: A4 . . . C#5 . . . . . . . . . . .\ngain intro 0.2>0.9\n",
    )
    .unwrap();
    let out = s.to_dsl();
    let lines: Vec<&str> = out.lines().collect();
    assert_eq!(lines[1], "bpm 128");
    assert_eq!(lines[2], "chords Am F");
    assert!(out.contains("section intro 2 1,1 fill\n"));
    assert!(out.contains("intro.kick p0: x... x... x... x...\n"));
    assert!(out.contains("intro.lead p0: A4 . . .  C#5 . . .  . . . .  . . . .\n"));
    assert!(out.contains("\ngain intro 0.2>0.9\nsub intro 0.5\nmids intro 0.6\n"));
    // and it reads back to the same timeline
    let s2 = Score::from_str(&out).unwrap();
    assert_eq!(s2.hit_slots(Inst::Kick), s.hit_slots(Inst::Kick));
    assert_eq!(s2.lead_notes(), s.lead_notes());
    assert_eq!(s2.chords, s.chords);
}

#[test]
fn pattern_text_round_trips() {
    let g = parse_pattern(&chars("x.x. |-_Xx| .... xxxx")).unwrap();
    assert_eq!(
        g,
        [true, false, true, false, false, false, true, true, false, false, false, false, true, true, true, true]
    );
    assert_eq!(pat_str(&g), "x.x. ..xx .... xxxx");
    assert_eq!(parse_pattern(&chars(&pat_str(&g))), Some(g));
    assert_eq!(parse_pattern(&chars("x... .... ....")), None);
    assert_eq!(parse_pattern(&chars("x... .... .... .... x")), None);
    assert_eq!(parse_pattern(&chars("x... .... .... ...o")), None);
}

#[test]
fn note_and_chord_names() {
    assert_eq!(note_name(69), "A4");
    assert_eq!(note_name(61), "C#4");
    assert_eq!(note_name(0), "C-1");
    assert_eq!(note_name(-1), "B-2");
    assert_eq!(chord_str(&Chord { root: 51, minor: true }), "D#m");
    assert_eq!(chord_str(&Chord { root: 45, minor: false }), "A");
    let s = Score::from_str("chords Ebm bb\nsection a 1\n").unwrap();
    assert_eq!(s.chords, vec![Chord { root: 51, minor: true }, Chord { root: 58, minor: false }]);
}

#[test]
fn default_fx_follows_the_section_names() {
    assert!(default_fx("drop", "wall"));
    assert!(default_fx("outro", "casio"));
    assert!(!default_fx("intro", "wall"));
    assert!(default_fx("build", "riser"));
    assert!(default_fx("breakdown", "impact"));
    assert!(!default_fx("drop", "bang"));
    assert!(!default_fx("drop", "unknown"));
}

#[test]
fn a_clean_score_has_no_warnings() {
    let s = Score::from_str(
        "section a 8 4,3 fill\na.kick p1: x... .... .... ....\n\
         a.lead p0: C5 . . . . . . . . . . . . . . .\n",
    )
    .unwrap();
    assert!(validate(&s.sections).is_empty());
}

// ---- live audio decisions -----------------------------------------------------------------------

#[test]
fn synth_plan_follows_the_flags() {
    assert_eq!(synth_plan(true, false, false, true), SynthPlan::Silent);
    assert_eq!(synth_plan(false, false, true, false), SynthPlan::Silent);
    assert_eq!(synth_plan(false, false, false, true), SynthPlan::Prerendered);
    assert_eq!(synth_plan(false, false, false, false), SynthPlan::Render);
}

#[test]
fn music_director_spawns_after_build_and_restarts_on_rewind() {
    let st = MusicState { has_source: false, playing: false };
    let (st, a) = music_step(st, MusicEvent { bytes_arrived: true, clock_rewound: false, built: false });
    assert!(a.make_source && a.open_gate && !a.spawn);
    let (st, a) = music_step(st, MusicEvent { bytes_arrived: false, clock_rewound: false, built: true });
    assert!(a.spawn && st.playing);
    let (st, a) = music_step(st, MusicEvent { bytes_arrived: false, clock_rewound: true, built: true });
    assert!(a.despawn && a.spawn && st.playing);
    let (_, a) = music_step(st, MusicEvent { bytes_arrived: false, clock_rewound: false, built: true });
    assert!(!a.spawn && !a.despawn && !a.make_source);
}

// ---- anchors -------------------------------------------------------------------------------------

fn anchor_secs(s: &Score, tok: &str) -> Option<f32> {
    let beat = 60.0f32 / s.bpm.text.parse::<f32>().unwrap();
    let bar = 4.0 * beat;
    s.anchor(tok).map(|a| match a {
        Anchor::Start => 0.0,
        Anchor::Section(i) => s.section_start_bar(i) as f32 * bar,
        Anchor::Bars(n) => n.text.parse::<f32>().unwrap() * bar,
        Anchor::Beats(n) => n.text.parse::<f32>().unwrap() * beat,
        Anchor::Seconds(n) => n.text.parse::<f32>().unwrap(),
    })
}

#[test]
fn anchor_seconds_resolves_every_form() {
    let s = Score::from_str("bpm 120\nsection intro 2 2\nsection drop 4 4\n").unwrap();
    let bar = 2.0f32;
    let beat = 0.5f32;
    assert_eq!(anchor_secs(&s, "start"), Some(0.0));
    // a real section name (the first) resolves to its start.
    let first = s.sections[0].name.clone();
    assert_eq!(anchor_secs(&s, &first), Some(0.0));
    // bar / beat forms, with and without the colon.
    assert_eq!(anchor_secs(&s, "bar1"), Some(bar));
    assert_eq!(anchor_secs(&s, "bar:2"), Some(2.0 * bar));
    assert_eq!(anchor_secs(&s, "beat4"), Some(4.0 * beat));
    // a plain number is seconds; whitespace + case are tolerated.
    assert_eq!(anchor_secs(&s, "  2.5 "), Some(2.5));
    assert_eq!(anchor_secs(&s, "nope"), None);
}

#[test]
fn anchor_tokens_read_their_kind() {
    let s = Score::from_str("bpm 120\nsection intro 2 2\nsection drop 4 4\nsection bar9 1 1\n").unwrap();
    assert!(matches!(s.anchor("  START "), Some(Anchor::Start)));
    assert!(matches!(s.anchor("Drop"), Some(Anchor::Section(1))));
    // a section name wins over the bar form
    assert!(matches!(s.anchor("bar9"), Some(Anchor::Section(2))));
    assert!(matches!(s.anchor("bar::3"), Some(Anchor::Bars(n)) if n.text == "3"));
    assert!(matches!(s.anchor("BEAT.5"), Some(Anchor::Beats(n)) if n.text == ".5"));
    assert!(matches!(s.anchor("1e2"), Some(Anchor::Seconds(n)) if n.text == "1e2"));
    assert!(s.anchor("bar").is_none());
    assert!(s.anchor("beat:x").is_none());
    assert!(s.anchor("").is_none());
}

// ---- writing and reading back ----------------------------------------------------------------------

#[test]
fn a_written_score_reads_back_the_same() {
    let dsl = "bpm 126.5\nchords Am F C G\nset reverb=0.35 lead=.8\n\
               section intro 4 2,1 fill\nsection drop 8\n\
               drop.chords: Dm Bb\nintro.set house=0.1\ndrop.fx: wall jet\n\
               intro.kick p0: x... x... x... x...\nintro.kick p1: .... .... .... ....\n\
               intro.kick p2: x.x. x.x. x.x. x.x.\nintro.kick fill: xxxx xxxx xxxx xxxx\n\
               drop.hat fill: x... .... .... ....\ndrop.snare p3: .... x... .... x...\n\
               intro.lead p0: A4 . . . C#5 . . . . . . . . . . .  E5 . . . . . . . . . . . . . . .\n\
               drop.bass p1: A2 . . . . . . . . . . . . . . .\n\
               gain intro 0.2>0.9 drop 1\nsub drop .4\nmids intro 0.7>0.7\n";
    let s = Score::from_str(dsl).unwrap();
    let text = s.to_dsl();
    let back = Score::from_str(&text).unwrap();
    // the text written from the reloaded score is the same text
    assert_eq!(back.to_dsl(), text);
    assert_eq!(back.bpm.text, "126.5");
    assert_eq!(back.chords, s.chords);
    assert_eq!(lit(back.param("lead")), Some(".8".to_string()));
    assert_eq!(back.total_bars(), 12);
    for inst in [Inst::Kick, Inst::Snare, Inst::Hat, Inst::Stab] {
        assert_eq!(back.hit_slots(inst), s.hit_slots(inst));
    }
    assert_eq!(back.lead_notes(), s.lead_notes());
    assert_eq!(back.arp_notes(), s.arp_notes());
    assert_eq!(back.bass_notes(), s.bass_notes());
    for b in 0..12 {
        assert_eq!(back.chord_at_bar(b), s.chord_at_bar(b));
    }
    assert!(back.fx_on("drop", "jet") && !back.fx_on("drop", "house"));
    assert_eq!(lit(back.param_in(0, "house")), Some("0.1".to_string()));
    // the silent kick phase and the fill of a section without a fill bar are not written
    assert!(!text.contains("intro.kick p1"));
    assert!(!text.contains("drop.hat fill"));
    assert!(text.contains("intro.kick fill: xxxx xxxx xxxx xxxx\n"));
    assert!(text.contains("section drop 8 8\n"));
    assert!(text.contains("mids intro 0.7 drop 0.6\n"));
}

#[test]
fn a_section_without_per_section_lines_reads_back_whatever_its_name() {
    // a name with `:` or `.` cannot start a per-section line, but a section without such lines
    // is written as its section line and its dynamics only
    let s = Score::from_str("section a:b.c 4 2,2\nsection d 2\ngain a:b.c 0.3 d 1>0\n").unwrap();
    let text = s.to_dsl();
    let back = Score::from_str(&text).unwrap();
    assert_eq!(back.to_dsl(), text);
    assert_eq!(back.sections[0].name, "a:b.c");
    assert_eq!(back.sections[0].phases, vec![2, 2]);
    assert_eq!(back.sections[1].phases, vec![2]);
    assert!(text.contains("gain a:b.c 0.3 d 1>0\n"));
}

// ---- review scenarios: trailing fill bar, capitalised section names, fallback ---------------------

#[test]
fn only_the_trailing_bar_of_an_overlong_section_is_the_fill() {
    // 10 bars, phases 4,4 plus a fill cover 9: bar 9 is the fill, bar 8 repeats the last phase.
    let f = Section::empty("f".to_string(), 10, vec![4, 4], true);
    assert_eq!(f.phase_and_offset(9), (255, 0));
    assert_eq!(f.phase_and_offset(8).0, 1);
    assert_eq!(f.phase_and_offset(8), (1, 4));
    assert_eq!(f.phase_and_offset(3), (0, 3));
    assert_eq!(f.phase_and_offset(4), (1, 0));
    assert_eq!(f.phase_at(9), 255);
    assert_eq!(f.phase_at(7), 1);
}

#[test]
fn a_short_fill_section_still_ends_on_the_fill() {
    // 3 bars, phase 2 plus a fill: bar 2 is the fill.
    let f = Section::empty("f".to_string(), 3, vec![2], true);
    assert_eq!(f.phase_and_offset(0), (0, 0));
    assert_eq!(f.phase_and_offset(1), (0, 1));
    assert_eq!(f.phase_and_offset(2), (255, 0));
}

#[test]
fn a_huge_later_phase_does_not_stop_an_early_bar_from_locating() {
    // 4 bars: every bar lies in the first phase, so the huge second span is never summed.
    let s = Section::empty("big".to_string(), 4, vec![4, 4294967295], false);
    assert!(s.fits_everywhere());
    assert_eq!(s.phase_and_offset(1), (0, 1));
    assert_eq!(s.phase_and_offset(3), (0, 3));
    // 5 bars: bar 4 would have to sum past the second span.
    let u = Section::empty("big".to_string(), 5, vec![4, 4294967295], false);
    assert!(!u.fits_everywhere());
    let t = Section::empty("huge".to_string(), 6, vec![4, 4294967295, 3], false);
    assert!(!t.fits_everywhere());
}

#[test]
fn a_capitalised_section_name_is_an_anchor() {
    let s = Score::from_str("bpm 120\nchords C\nsection intro 2 2\nsection Drop 2 2\n").unwrap();
    assert!(matches!(s.anchor("Drop"), Some(Anchor::Section(1))));
    assert!(matches!(s.anchor("drop"), Some(Anchor::Section(1))));
    assert!(matches!(s.anchor("  DROP "), Some(Anchor::Section(1))));
    assert_eq!(anchor_secs(&s, "Drop"), Some(4.0));
    assert_eq!(anchor_secs(&s, "intro"), Some(0.0));
}

#[test]
fn a_failed_prerendered_read_falls_back_to_rendering() {
    assert!(matches!(after_prerendered_read(false), SynthPlan::Render));
    assert!(matches!(after_prerendered_read(true), SynthPlan::Prerendered));
    assert!(matches!(synth_plan(false, false, false, true), SynthPlan::Prerendered));
}

#[test]
fn a_written_grid_has_marks_at_i_plus_i_over_4_and_spaces_between_groups() {
    let mut g = [false; 16];
    for i in [0usize, 5, 10, 15] {
        g[i] = true;
    }
    let t = pat_str(&g);
    assert_eq!(t.len(), 19);
    let b = t.as_bytes();
    for j in 0..19 {
        assert_eq!(b[j] == b' ', j == 4 || j == 9 || j == 14);
    }
    for i in 0..16 {
        assert_eq!(b[i + i / 4], if g[i] { b'x' } else { b'.' });
    }
}

#[test]
fn a_grid_reads_from_its_marks_whatever_the_separators() {
    // tabs, bars and spaces anywhere; `-` and `_` rest, `X` hits.
    let g = parse_pattern(&chars("\tX-_.|x...|....|...X ")).unwrap();
    let want: Vec<bool> = "X-_.x.......   ...X".chars().filter(|c| *c != ' ').map(|c| c == 'x' || c == 'X').collect();
    assert_eq!(g.to_vec(), want);
    // 17 marks, or a stray char, do not read.
    assert_eq!(parse_pattern(&chars("x... .... .... .... .")), None);
    assert_eq!(parse_pattern(&chars("x... .... .... ..,.")), None);
}

#[test]
fn a_section_named_with_a_colon_keeps_its_knobs_through_a_round_trip() {
    let s = Score::from_str("bpm 120\nsection a:b 4\na:b.set house=0.3\n").unwrap();
    let text = s.to_dsl();
    assert!(text.contains("a:b.set house=0.3\n"));
    let back = Score::from_str(&text).unwrap();
    assert_eq!(back.sections[0].name, "a:b");
    assert_eq!(lit(back.param_in(0, "house")), Some("0.3".to_string()));
    assert_eq!(back.to_dsl(), text);
}

#[test]
fn the_lowest_writable_pitches_round_trip() {
    // C, C# and D of the lowest octave whose name reads back within `i32`.
    let dsl = "section a 1 1\na.lead p0: C-178956971 C#-178956971 D-178956971 . . . . . . . . . . . . .\n";
    let s = Score::from_str(dsl).unwrap();
    let text = s.to_dsl();
    assert!(text.contains("C-178956971 C#-178956971 D-178956971"));
    let back = Score::from_str(&text).unwrap();
    assert_eq!(back.lead_notes(), s.lead_notes());
    assert_eq!(back.to_dsl(), text);
}

#[test]
fn a_b_sharp_chord_is_written_as_the_c_an_octave_up_and_reads_back_lower() {
    // `B#` reads as the C above octave 3; its written name `C` reads back in octave 3.
    let s = Score::from_str("chords B#\nsection a 1\n").unwrap();
    let back = Score::from_str(&s.to_dsl()).unwrap();
    assert_eq!(back.chords[0].root + 12, s.chords[0].root);
}

#[test]
fn a_section_name_used_twice_loses_the_first_sections_dynamics() {
    // Every line naming `a` reaches the first `a`; the written gain line names both, the second
    // (still at its default) last.
    let s = Score::from_str("section a 1\nsection a 1\ngain a 0.2\n").unwrap();
    let text = s.to_dsl();
    let back = Score::from_str(&text).unwrap();
    assert_ne!(back.to_dsl(), text);
}

#[test]
fn hits_and_notes_read_back_whatever_the_chords_knobs_and_fx() {
    // `B#`, `Cb` and `C1` leave octave 3; a key and an FX word starting with `#` (after a
    // non-breaking space, so not a comment here) start a comment once written after a space.
    let dsl = "bpm 120\nchords B# Cb C1\nset\u{a0}#k=1 zz=2\nsection a 2 1\n\
               a.set\u{a0}#q=3\na.fx:\u{a0}#wow jet\na.kick p0: x... x... x... x...\n\
               a.lead p0: A4 . . . . . . . . . . . . . . .\n";
    let s = Score::from_str(dsl).unwrap();
    assert_eq!(lit(s.param("zz")), Some("2".to_string()));
    let back = Score::from_str(&s.to_dsl()).unwrap();
    for inst in [Inst::Kick, Inst::Snare, Inst::Hat, Inst::Stab] {
        assert_eq!(back.hit_slots(inst), s.hit_slots(inst));
    }
    assert_eq!(back.lead_notes(), s.lead_notes());
    // the chords come back in octave 3, the knobs behind the `#` key are lost
    assert_eq!(back.chords.iter().map(|c| c.root).collect::<Vec<_>>(), vec![48, 59, 48]);
    assert_eq!(lit(back.param("zz")), None);
    assert!(!back.fx_on("a", "jet"));
}
