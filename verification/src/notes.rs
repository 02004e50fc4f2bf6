//! Pitched material: note names (`A4`, `C#5`, `Eb3`) read as MIDI note numbers, chords, melodic
//! note lanes, and their text forms. Pitch is carried as the MIDI number the name denotes
//! (`A4` = 69); the frequency `440 · 2^((n − 69) / 12)` is computed by the synth.
use vstd::prelude::*;
use crate::text::{
    char_from_ascii, is_digit, lemma_run_len, lemma_words_word, lemma_words_ws, run_len, skip_word,
    trim, trim_bounds, upper, upper_char, words, is_ws_char,
};
use crate::numbers::{
    dec, dec_int, parse_i32, parse_i32_exec, push_char, push_chars, push_int,
};

verus! {

/// The outcome of reading a piece of score text: a value, a rejection, or an input that the
/// reading cannot take (its arithmetic would overflow, or a required part is missing), on which
/// reading panics.
pub enum Scan<T> {
    Read(T),
    Rejected,
    Panics,
}

/// Semitone of a note letter above `C` (either case).
pub open spec fn letter_base(c: char) -> Option<int> {
    let u = upper(c);
    if u == 'C' {
        Some(0)
    } else if u == 'D' {
        Some(2)
    } else if u == 'E' {
        Some(4)
    } else if u == 'F' {
        Some(5)
    } else if u == 'G' {
        Some(7)
    } else if u == 'A' {
        Some(9)
    } else if u == 'B' {
        Some(11)
    } else {
        None
    }
}

/// A note name → MIDI number: letter `A`–`G`, optional `#`/`b`, then an `i32` octave
/// (`A4` = 69, `C-1` = 0). The number is `(octave + 1) · 12 + semitone`, computed in `i32`.
pub open spec fn spec_note(name: Seq<char>) -> Scan<i32> {
    if name.len() == 0 {
        Scan::Rejected
    } else {
        match letter_base(name[0]) {
            None => Scan::Rejected,
            Some(base) => {
                let r = name.drop_first();
                let semi = if r.len() > 0 && r[0] == '#' {
                    base + 1
                } else if r.len() > 0 && r[0] == 'b' {
                    base - 1
                } else {
                    base
                };
                let rest = if r.len() > 0 && (r[0] == '#' || r[0] == 'b') {
                    r.drop_first()
                } else {
                    r
                };
                match parse_i32(rest) {
                    None => Scan::Rejected,
                    Some(o) => {
                        let o1 = o + 1;
                        let m = o1 * 12 + semi;
                        if o1 > i32::MAX || o1 * 12 < i32::MIN || o1 * 12 > i32::MAX || m
                            < i32::MIN || m > i32::MAX {
                            Scan::Panics
                        } else {
                            Scan::Read(m as i32)
                        }
                    },
                }
            },
        }
    }
}

fn letter_base_exec(c: char) -> (r: Option<i32>)
    ensures
        match r {
            Some(v) => letter_base(c) == Some(v as int),
            None => letter_base(c).is_none(),
        },
{
    let u = upper_char(c);
    if u == 'C' {
        Some(0)
    } else if u == 'D' {
        Some(2)
    } else if u == 'E' {
        Some(4)
    } else if u == 'F' {
        Some(5)
    } else if u == 'G' {
        Some(7)
    } else if u == 'A' {
        Some(9)
    } else if u == 'B' {
        Some(11)
    } else {
        None
    }
}

/// Parse a note name → MIDI number: letter `A`–`G`, optional `#`/`b`, octave (`A4` = 69).
pub fn note_midi(name: &[char]) -> (r: Scan<i32>)
    ensures
        r == spec_note(name@),
{
    if name.len() == 0 {
        return Scan::Rejected;
    }
    let base = match letter_base_exec(name[0]) {
        Some(b) => b,
        None => return Scan::Rejected,
    };
    let mut semi = base;
    let mut from: usize = 1;
    if name.len() > 1 && name[1] == '#' {
        semi = base + 1;
        from = 2;
    } else if name.len() > 1 && name[1] == 'b' {
        semi = base - 1;
        from = 2;
    }
    let rest = &name[from..name.len()];
    proof {
        let r = name@.drop_first();
        if from == 2 {
            assert(rest@ =~= r.drop_first());
        } else {
            assert(rest@ =~= r);
        }
    }
    match parse_i32_exec(rest) {
        None => Scan::Rejected,
        Some(o) => {
            let o1 = o as i64 + 1;
            let m = o1 * 12 + semi as i64;
            if o1 > 0x7fff_ffff || o1 * 12 < -0x8000_0000 || o1 * 12 > 0x7fff_ffff || m
                < -0x8000_0000 || m > 0x7fff_ffff {
                Scan::Panics
            } else {
                Scan::Read(m as i32)
            }
        },
    }
}

/// A chord: a root pitch (MIDI number) + major/minor quality. Cycles per bar (the `chords`
/// line) and drives the bass + stab, so the harmony moves under the melody.
#[derive(Clone, Copy, PartialEq, Eq, Structural, Debug)]
pub struct Chord {
    pub root: i32,
    pub minor: bool,
}

/// A chord token: a note (letter + optional `#`/`b`) + optional trailing `m` for minor (`Am`,
/// `F`, `C#`, `Ebm`); the root is taken at octave 3.
pub open spec fn spec_parse_chord(s: Seq<char>) -> Scan<Chord> {
    let t = trim(s);
    let minor = t.len() > 1 && t.last() == 'm';
    let note = if minor {
        t.drop_last()
    } else {
        t
    };
    match spec_note(note.push('3')) {
        Scan::Read(m) => Scan::Read(Chord { root: m, minor }),
        Scan::Rejected => Scan::Rejected,
        Scan::Panics => Scan::Panics,
    }
}

pub fn parse_chord(s: &[char]) -> (r: Scan<Chord>)
    ensures
        r == spec_parse_chord(s@),
{
    let (a, b) = trim_bounds(s);
    let minor = b - a > 1 && s[b - 1] == 'm';
    let end = if minor {
        b - 1
    } else {
        b
    };
    let mut note: Vec<char> = Vec::new();
    let mut i = a;
    while i < end
        invariant
            a <= i <= end <= b <= s@.len(),
            note@ == s@.subrange(a as int, i as int),
        decreases end - i,
    {
        note.push(s[i]);
        i += 1;
        assert(note@ =~= s@.subrange(a as int, i as int));
    }
    note.push('3');
    proof {
        let t = trim(s@);
        if minor {
            assert(t.drop_last() =~= s@.subrange(a as int, end as int));
        } else {
            assert(t =~= s@.subrange(a as int, end as int));
        }
    }
    match note_midi(note.as_slice()) {
        Scan::Read(m) => Scan::Read(Chord { root: m, minor }),
        Scan::Rejected => Scan::Rejected,
        Scan::Panics => Scan::Panics,
    }
}

// ---- melodic lanes --------------------------------------------------------------------------------

/// A melodic note lane: a pitch per 16-step slot (`None` = rest) — the same phase/fill shape as a
/// drum lane, but pitched. Each phase is a **phrase** of 1+ bars that loops.
pub struct NoteLane {
    pub phases: Vec<Vec<[Option<i32>; 16]>>,
    pub fill: Vec<[Option<i32>; 16]>,
}

#[verifier::ext_equal]
pub struct NoteLaneV {
    pub phases: Seq<Seq<Seq<Option<i32>>>>,
    pub fill: Seq<Seq<Option<i32>>>,
}

pub open spec fn phrase_view(p: Seq<[Option<i32>; 16]>) -> Seq<Seq<Option<i32>>> {
    p.map_values(|b: [Option<i32>; 16]| b@)
}

impl View for NoteLane {
    type V = NoteLaneV;

    open spec fn view(&self) -> NoteLaneV {
        NoteLaneV {
            phases: self.phases@.map_values(|p: Vec<[Option<i32>; 16]>| phrase_view(p@)),
            fill: phrase_view(self.fill@),
        }
    }
}

pub open spec fn rest_bar() -> Seq<Option<i32>> {
    Seq::new(16, |i: int| None)
}

/// The 16 slots `into` bars into a section: the `p0` phrase loops continuously across the section.
pub open spec fn note_lane_bar(l: NoteLaneV, into: u32) -> Seq<Option<i32>> {
    let phrase = if l.phases.len() > 0 {
        l.phases[0]
    } else {
        seq![]
    };
    if phrase.len() == 0 {
        rest_bar()
    } else {
        phrase[(into as int) % (phrase.len() as int)]
    }
}

/// Whether a phrase holds at least one note.
pub open spec fn phrase_has_note(p: Seq<Seq<Option<i32>>>) -> bool {
    exists|b: int, i: int| 0 <= b < p.len() && 0 <= i < p[b].len() && p[b][i] is Some
}

pub fn rest_grid() -> (r: [Option<i32>; 16])
    ensures
        r@ == rest_bar(),
{
    let r: [Option<i32>; 16] = [None; 16];
    assert(r@ =~= rest_bar());
    r
}

impl NoteLane {
    pub fn empty() -> (r: NoteLane)
        ensures
            r@.phases.len() == 0,
            r@.fill.len() == 0,
    {
        NoteLane { phases: Vec::new(), fill: Vec::new() }
    }

    /// The 16-slot grid `into` bars into the section.
    pub fn bar(&self, into: u32) -> (r: [Option<i32>; 16])
        ensures
            r@ == note_lane_bar(self@, into),
    {
        if self.phases.len() == 0 {
            return rest_grid();
        }
        let phrase = &self.phases[0];
        if phrase.len() == 0 {
            rest_grid()
        } else {
            phrase[(into as usize) % phrase.len()]
        }
    }

    /// Whether `phrase` holds a note.
    pub fn any(phrase: &Vec<[Option<i32>; 16]>) -> (r: bool)
        ensures
            r == phrase_has_note(phrase_view(phrase@)),
    {
        let mut b: usize = 0;
        while b < phrase.len()
            invariant
                b <= phrase@.len(),
                forall|x: int, i: int|
                    0 <= x < b && 0 <= i < 16 ==> phrase@[x]@[i] is None,
            decreases phrase@.len() - b,
        {
            let bar = &phrase[b];
            let mut i: usize = 0;
            while i < 16
                invariant
                    b < phrase@.len(),
                    *bar == phrase@[b as int],
                    i <= 16,
                    forall|x: int, k: int|
                        0 <= x < b && 0 <= k < 16 ==> phrase@[x]@[k] is None,
                    forall|k: int| 0 <= k < i ==> bar@[k] is None,
                decreases 16 - i,
            {
                if bar[i].is_some() {
                    proof {
                        let pv = phrase_view(phrase@);
                        assert(pv[b as int][i as int] is Some);
                    }
                    return true;
                }
                i += 1;
            }
            b += 1;
        }
        proof {
            let pv = phrase_view(phrase@);
            assert forall|x: int, i: int|
                0 <= x < pv.len() && 0 <= i < pv[x].len() implies !(pv[x][i] is Some) by {
                assert(pv[x] == phrase@[x]@);
            }
        }
        false
    }
}

impl Default for NoteLane {
    fn default() -> (r: NoteLane)
        ensures
            r@.phases.len() == 0,
            r@.fill.len() == 0,
    {
        NoteLane::empty()
    }
}

/// A rest token: `.`, `-` or `_`.
pub open spec fn is_rest_tok(t: Seq<char>) -> bool {
    t == seq!['.'] || t == seq!['-'] || t == seq!['_']
}

/// Note tokens read in order: a rest, or a note; the first token that is neither rejects, the
/// first whose number overflows overflows.
pub open spec fn read_slots(toks: Seq<Seq<char>>) -> Scan<Seq<Option<i32>>>
    decreases toks.len(),
{
    if toks.len() == 0 {
        Scan::Read(seq![])
    } else {
        let t = toks[0];
        let first: Scan<Option<i32>> = if is_rest_tok(t) {
            Scan::Read(None)
        } else {
            match spec_note(t) {
                Scan::Read(m) => Scan::Read(Some(m)),
                Scan::Rejected => Scan::Rejected,
                Scan::Panics => Scan::Panics,
            }
        };
        match first {
            Scan::Read(x) => match read_slots(toks.drop_first()) {
                Scan::Read(rest) => Scan::Read(seq![x] + rest),
                Scan::Rejected => Scan::Rejected,
                Scan::Panics => Scan::Panics,
            },
            Scan::Rejected => Scan::Rejected,
            Scan::Panics => Scan::Panics,
        }
    }
}

/// Consecutive groups of 16 slots.
pub open spec fn bars_of(slots: Seq<Option<i32>>) -> Seq<Seq<Option<i32>>> {
    Seq::new(slots.len() / 16, |b: int| slots.subrange(16 * b, 16 * b + 16))
}

/// Whitespace-separated note tokens (`A4`/`C#5`/… or a rest) as a phrase of one or more bars of 16
/// slots; the token count must be a positive multiple of 16.
pub open spec fn spec_parse_notes(s: Seq<char>) -> Scan<Seq<Seq<Option<i32>>>> {
    let toks = words(s);
    if toks.len() == 0 || toks.len() % 16 != 0 {
        Scan::Rejected
    } else {
        match read_slots(toks) {
            Scan::Read(slots) => Scan::Read(bars_of(slots)),
            Scan::Rejected => Scan::Rejected,
            Scan::Panics => Scan::Panics,
        }
    }
}

pub proof fn lemma_read_slots_len(toks: Seq<Seq<char>>)
    ensures
        read_slots(toks) matches Scan::Read(s) ==> s.len() == toks.len(),
    decreases toks.len(),
{
    if toks.len() > 0 {
        lemma_read_slots_len(toks.drop_first());
    }
}

pub proof fn lemma_read_slots_step(done: Seq<Seq<char>>, rest: Seq<Seq<char>>, acc: Seq<Option<i32>>, x: Option<i32>)
    requires
        rest.len() > 0,
        read_slots(done) == Scan::Read(acc),
        (if is_rest_tok(rest[0]) {
            x is None
        } else {
            spec_note(rest[0]) == Scan::Read(x->0)
        }) && (is_rest_tok(rest[0]) || x is Some),
    ensures
        read_slots(done.push(rest[0])) == Scan::Read(acc.push(x)),
    decreases done.len(),
{
    if done.len() == 0 {
        assert(done.push(rest[0]).drop_first() =~= Seq::<Seq<char>>::empty());
        assert(seq![x] + Seq::<Option<i32>>::empty() =~= acc.push(x));
    } else {
        let d0 = done[0];
        assert(done.push(rest[0]).drop_first() =~= done.drop_first().push(rest[0]));
        let first: Scan<Option<i32>> = if is_rest_tok(d0) {
            Scan::Read(None)
        } else {
            match spec_note(d0) {
                Scan::Read(m) => Scan::Read(Some(m)),
                Scan::Rejected => Scan::Rejected,
                Scan::Panics => Scan::Panics,
            }
        };
        let y = first->Read_0;
        let tail = read_slots(done.drop_first())->Read_0;
        assert(acc =~= seq![y] + tail);
        lemma_read_slots_step(done.drop_first(), rest, tail, x);
        assert(seq![y] + tail.push(x) =~= acc.push(x));
    }
}

/// `read_slots` of a prefix that fails already decides the whole.
pub proof fn lemma_read_slots_stop(done: Seq<Seq<char>>, more: Seq<Seq<char>>)
    requires
        !(read_slots(done) is Read),
    ensures
        read_slots(done + more) == read_slots(done),
    decreases done.len(),
{
    if done.len() > 0 {
        assert((done + more).drop_first() =~= done.drop_first() + more);
        assert((done + more)[0] == done[0]);
        let d0 = done[0];
        if is_rest_tok(d0) || spec_note(d0) is Read {
            lemma_read_slots_stop(done.drop_first(), more);
        }
    }
}

/// Parse whitespace-separated note tokens into a melodic phrase of one or more 16-slot bars.
pub fn parse_notes(s: &[char]) -> (r: Scan<Vec<[Option<i32>; 16]>>)
    ensures
        match r {
            Scan::Read(v) => spec_parse_notes(s@) == Scan::Read(phrase_view(v@)),
            Scan::Rejected => spec_parse_notes(s@) is Rejected,
            Scan::Panics => spec_parse_notes(s@) is Panics,
        },
{
    let ws = crate::text::word_bounds(s);
    let n = ws.len();
    if n == 0 || n % 16 != 0 {
        return Scan::Rejected;
    }
    let ghost toks = words(s@);
    let mut bars: Vec<[Option<i32>; 16]> = Vec::new();
    let mut cur: [Option<i32>; 16] = [None; 16];
    let ghost mut acc: Seq<Option<i32>> = seq![];
    let mut k: usize = 0;
    while k < n
        invariant
            n == ws@.len() == toks.len(),
            n % 16 == 0,
            toks == words(s@),
            k <= n,
            forall|j: int|
                0 <= j < ws@.len() ==> {
                    &&& (#[trigger] ws@[j]).0 < ws@[j].1 <= s@.len()
                    &&& s@.subrange(ws@[j].0 as int, ws@[j].1 as int) == toks[j]
                },
            read_slots(toks.take(k as int)) == Scan::Read(acc),
            acc.len() == k,
            bars@.len() == k / 16,
            forall|b: int| 0 <= b < bars@.len() ==> (#[trigger] bars@[b])@ == acc.subrange(16 * b, 16 * b + 16),
            forall|i: int| 0 <= i < k % 16 ==> cur@[i] == acc[16 * (k / 16) + i],
        decreases n - k,
    {
        let (a, b) = ws[k];
        let t = &s[a..b];
        let x: Option<i32>;
        if t.len() == 1 && (t[0] == '.' || t[0] == '-' || t[0] == '_') {
            proof {
                assert(t@ =~= seq![t@[0]]);
            }
            x = None;
        } else {
            proof {
                if is_rest_tok(t@) {
                    assert(t@.len() == 1);
                    assert(t@[0] == '.' || t@[0] == '-' || t@[0] == '_');
                }
            }
            match note_midi(t) {
                Scan::Read(m) => {
                    x = Some(m);
                },
                Scan::Rejected => {
                    proof {
                        assert(toks.take(k + 1) =~= toks.take(k as int).push(toks[k as int]));
                        assert(read_slots(toks.take(k as int).push(toks[k as int])) is Rejected) by {
                            lemma_read_slots_stop_after(toks.take(k as int), toks[k as int], acc);
                        }
                        lemma_read_slots_stop(toks.take(k + 1), toks.skip(k + 1));
                        assert(toks.take(k + 1) + toks.skip(k + 1) =~= toks);
                    }
                    return Scan::Rejected;
                },
                Scan::Panics => {
                    proof {
                        assert(toks.take(k + 1) =~= toks.take(k as int).push(toks[k as int]));
                        assert(read_slots(toks.take(k as int).push(toks[k as int])) is Panics) by {
                            lemma_read_slots_stop_after(toks.take(k as int), toks[k as int], acc);
                        }
                        lemma_read_slots_stop(toks.take(k + 1), toks.skip(k + 1));
                        assert(toks.take(k + 1) + toks.skip(k + 1) =~= toks);
                    }
                    return Scan::Panics;
                },
            }
        }
        proof {
            assert(toks.take(k + 1) =~= toks.take(k as int).push(toks[k as int]));
            lemma_read_slots_step(toks.take(k as int), toks.skip(k as int), acc, x);
            assert(toks.skip(k as int)[0] == toks[k as int]);
        }
        let ghost old_cur = cur@;
        let ghost old_bars = bars@;
        cur[k % 16] = x;
        proof {
            acc = acc.push(x);
        }
        if k % 16 == 15 {
            bars.push(cur);
            proof {
                let b = (k / 16) as int;
                assert(cur@ =~= acc.subrange(16 * b, 16 * b + 16));
            }
        }
        k += 1;
        proof {
            assert forall|b: int| 0 <= b < bars@.len() implies (#[trigger] bars@[b])@ == acc.subrange(16 * b, 16 * b + 16) by {
                if b < old_bars.len() {
                    assert(bars@[b] == old_bars[b]);
                    assert(acc.subrange(16 * b, 16 * b + 16) =~= acc.drop_last().subrange(16 * b, 16 * b + 16));
                }
            }
        }
    }
    proof {
        assert(toks.take(n as int) =~= toks);
        assert(phrase_view(bars@) =~= bars_of(acc));
    }
    Scan::Read(bars)
}

/// When the next token fails, the prefix extended by it fails the same way.
pub proof fn lemma_read_slots_stop_after(done: Seq<Seq<char>>, t: Seq<char>, acc: Seq<Option<i32>>)
    requires
        read_slots(done) == Scan::Read(acc),
        !is_rest_tok(t),
        !(spec_note(t) is Read),
    ensures
        read_slots(done.push(t)) == (if spec_note(t) is Rejected {
            Scan::<Seq<Option<i32>>>::Rejected
        } else {
            Scan::<Seq<Option<i32>>>::Panics
        }),
    decreases done.len(),
{
    if done.len() == 0 {
        assert(done.push(t)[0] == t);
        assert(done.push(t).drop_first() =~= Seq::<Seq<char>>::empty());
    } else {
        assert(done.push(t).drop_first() =~= done.drop_first().push(t));
        assert(done.push(t)[0] == done[0]);
        let d0 = done[0];
        let first: Scan<Option<i32>> = if is_rest_tok(d0) {
            Scan::Read(None)
        } else {
            match spec_note(d0) {
                Scan::Read(m) => Scan::Read(Some(m)),
                Scan::Rejected => Scan::Rejected,
                Scan::Panics => Scan::Panics,
            }
        };
        let tail = read_slots(done.drop_first())->Read_0;
        lemma_read_slots_stop_after(done.drop_first(), t, tail);
    }
}

// ---- names ----------------------------------------------------------------------------------------

/// The sharp-spelled name of pitch class `k` (`0` = `C` … `11` = `B`).
pub open spec fn pc_name(k: int) -> Seq<char> {
    if k == 0 {
        seq!['C']
    } else if k == 1 {
        seq!['C', '#']
    } else if k == 2 {
        seq!['D']
    } else if k == 3 {
        seq!['D', '#']
    } else if k == 4 {
        seq!['E']
    } else if k == 5 {
        seq!['F']
    } else if k == 6 {
        seq!['F', '#']
    } else if k == 7 {
        seq!['G']
    } else if k == 8 {
        seq!['G', '#']
    } else if k == 9 {
        seq!['A']
    } else if k == 10 {
        seq!['A', '#']
    } else {
        seq!['B']
    }
}

/// The note name (with octave) of a MIDI number, e.g. `69` → `A4`, `0` → `C-1`.
pub open spec fn spec_note_name(m: int) -> Seq<char> {
    pc_name(m % 12) + dec_int(m / 12 - 1)
}

/// Appends the sharp-spelled name of pitch class `k`.
fn push_pc_name(out: &mut String, k: u32)
    requires
        k < 12,
    ensures
        final(out)@ == old(out)@ + pc_name(k as int),
{
    let letter = if k <= 1 {
        'C'
    } else if k <= 3 {
        'D'
    } else if k == 4 {
        'E'
    } else if k <= 6 {
        'F'
    } else if k <= 8 {
        'G'
    } else if k <= 10 {
        'A'
    } else {
        'B'
    };
    push_char(out, letter);
    if k == 1 || k == 3 || k == 6 || k == 8 || k == 10 {
        push_char(out, '#');
        assert(final(out)@ =~= old(out)@ + pc_name(k as int));
    } else {
        assert(final(out)@ =~= old(out)@ + pc_name(k as int));
    }
}

/// Euclidean quotient and remainder of a MIDI number by 12.
fn div_rem_12(m: i32) -> (r: (i64, u32))
    ensures
        r.0 == (m as int) / 12,
        r.1 == (m as int) % 12,
        r.1 < 12,
{
    let u: i64 = m as i64 + 2_400_000_000;
    let q = u / 12 - 200_000_000;
    let rm = (u % 12) as u32;
    proof {
        assert(((m as int) + 2_400_000_000) / 12 == (m as int) / 12 + 200_000_000) by (nonlinear_arith);
        assert(((m as int) + 2_400_000_000) % 12 == (m as int) % 12) by (nonlinear_arith);
    }
    (q, rm)
}

/// Appends the note name (with octave) of a MIDI number.
pub fn push_note_name(out: &mut String, m: i32)
    ensures
        final(out)@ == old(out)@ + spec_note_name(m as int),
{
    let (q, k) = div_rem_12(m);
    push_pc_name(out, k);
    proof {
        assert(q - 1 > i64::MIN);
    }
    push_int(out, q - 1);
    assert(final(out)@ =~= old(out)@ + spec_note_name(m as int));
}

/// Nearest note name (with octave) for a pitch — for `to_dsl`.
pub fn note_name(m: i32) -> (r: String)
    ensures
        r@ == spec_note_name(m as int),
{
    let mut s = String::new();
    push_note_name(&mut s, m);
    assert(s@ =~= spec_note_name(m as int));
    s
}

/// The name of a slot: its note, or `.` for a rest.
pub open spec fn slot_name(n: Option<i32>) -> Seq<char> {
    match n {
        Some(m) => spec_note_name(m as int),
        None => seq!['.'],
    }
}

/// The first `n` slots of a bar as `notes_str` writes them: one space between names, two between
/// groups of four.
pub open spec fn notes_prefix(g: Seq<Option<i32>>, n: nat) -> Seq<char>
    decreases n,
{
    if n == 0 {
        seq![]
    } else {
        let i = (n - 1) as int;
        let sep: Seq<char> = if i == 0 {
            seq![]
        } else if i % 4 == 0 {
            seq![' ', ' ']
        } else {
            seq![' ']
        };
        notes_prefix(g, (n - 1) as nat) + sep + slot_name(g[i])
    }
}

pub open spec fn spec_notes_str(g: Seq<Option<i32>>) -> Seq<char> {
    notes_prefix(g, 16)
}

/// The first `n` bars of a phrase, each bar's text, three spaces between bars.
pub open spec fn phrase_prefix(p: Seq<Seq<Option<i32>>>, n: nat) -> Seq<char>
    decreases n,
{
    if n == 0 {
        seq![]
    } else if n == 1 {
        spec_notes_str(p[0])
    } else {
        phrase_prefix(p, (n - 1) as nat) + seq![' ', ' ', ' '] + spec_notes_str(p[n - 1])
    }
}

pub open spec fn spec_notes_phrase(p: Seq<Seq<Option<i32>>>) -> Seq<char> {
    phrase_prefix(p, p.len())
}

/// Appends one bar of notes: names (or `.`), spaced in groups of four.
pub fn push_notes_str(out: &mut String, g: &[Option<i32>; 16])
    ensures
        final(out)@ == old(out)@ + spec_notes_str(g@),
{
    let ghost o = out@;
    let mut i: usize = 0;
    while i < 16
        invariant
            i <= 16,
            out@ == o + notes_prefix(g@, i as nat),
        decreases 16 - i,
    {
        if i > 0 && i % 4 == 0 {
            push_char(out, ' ');
            push_char(out, ' ');
        } else if i > 0 {
            push_char(out, ' ');
        }
        match g[i] {
            Some(m) => push_note_name(out, m),
            None => push_char(out, '.'),
        }
        proof {
            let sep: Seq<char> = if i == 0 {
                seq![]
            } else if i % 4 == 0 {
                seq![' ', ' ']
            } else {
                seq![' ']
            };
            assert(notes_prefix(g@, (i + 1) as nat) == notes_prefix(g@, i as nat) + sep + slot_name(
                g@[i as int],
            ));
            assert(out@ =~= o + notes_prefix(g@, (i + 1) as nat));
        }
        i += 1;
    }
}

pub fn notes_str(g: &[Option<i32>; 16]) -> (r: String)
    ensures
        r@ == spec_notes_str(g@),
{
    let mut s = String::new();
    push_notes_str(&mut s, g);
    assert(s@ =~= spec_notes_str(g@));
    s
}

/// Appends a whole melodic phrase (1+ bars) on one line — each bar's text, joined by 3 spaces.
pub fn push_notes_phrase(out: &mut String, phrase: &Vec<[Option<i32>; 16]>)
    ensures
        final(out)@ == old(out)@ + spec_notes_phrase(phrase_view(phrase@)),
{
    let ghost o = out@;
    let ghost pv = phrase_view(phrase@);
    let mut b: usize = 0;
    while b < phrase.len()
        invariant
            b <= phrase@.len(),
            pv == phrase_view(phrase@),
            out@ == o + phrase_prefix(pv, b as nat),
        decreases phrase@.len() - b,
    {
        if b > 0 {
            push_char(out, ' ');
            push_char(out, ' ');
            push_char(out, ' ');
        }
        push_notes_str(out, &phrase[b]);
        proof {
            assert(pv[b as int] == phrase@[b as int]@);
            assert(out@ =~= o + phrase_prefix(pv, (b + 1) as nat));
        }
        b += 1;
    }
}

pub fn notes_phrase(phrase: &Vec<[Option<i32>; 16]>) -> (r: String)
    ensures
        r@ == spec_notes_phrase(phrase_view(phrase@)),
{
    let mut s = String::new();
    push_notes_phrase(&mut s, phrase);
    assert(s@ =~= spec_notes_phrase(phrase_view(phrase@)));
    s
}

pub open spec fn non_digit_pred() -> spec_fn(char) -> bool {
    |c: char| !is_digit(c)
}

/// A chord's text: the letters of its root's name (up to the first digit), then `m` if minor.
pub open spec fn spec_chord_str(c: Chord) -> Seq<char> {
    let name = spec_note_name(c.root as int);
    name.take(run_len(name, non_digit_pred()) as int) + (if c.minor {
        seq!['m']
    } else {
        seq![]
    })
}

/// Appends a chord's text.
pub fn push_chord_str(out: &mut String, c: &Chord)
    ensures
        final(out)@ == old(out)@ + spec_chord_str(*c),
{
    let name = note_name(c.root);
    let v = crate::text::chars_of(name.as_str());
    let mut i: usize = 0;
    while i < v.len() && !('0' <= v[i] && v[i] <= '9')
        invariant
            i <= v@.len(),
            forall|k: int| 0 <= k < i ==> !is_digit(#[trigger] v@[k]),
        decreases v@.len() - i,
    {
        i += 1;
    }
    proof {
        assert forall|k: int| 0 <= k < i implies #[trigger] non_digit_pred()(v@[k]) by {}
        lemma_run_len(v@, non_digit_pred(), 0, i as int);
        assert(v@.skip(0) =~= v@);
    }
    push_chars(out, &v.as_slice()[0..i]);
    if c.minor {
        push_char(out, 'm');
    }
    assert(final(out)@ =~= old(out)@ + spec_chord_str(*c));
}

pub fn chord_str(c: &Chord) -> (r: String)
    ensures
        r@ == spec_chord_str(*c),
{
    let mut s = String::new();
    push_chord_str(&mut s, c);
    assert(s@ =~= spec_chord_str(*c));
    s
}

/// Reading back the name `note_name` writes gives the same pitch (for any pitch but the lowest
/// few, whose octave arithmetic would leave `i32`).
pub proof fn lemma_note_name_round_trip(m: int)
    requires
        i32::MIN + 8 <= m <= i32::MAX,
    ensures
        spec_note(spec_note_name(m)) == Scan::Read(m as i32),
{
    let k = m % 12;
    let o = m / 12 - 1;
    let name = spec_note_name(m);
    let pc = pc_name(k);
    let d = dec_int(o);
    crate::numbers::lemma_parse_dec_int(o);
    assert(name == pc + d);
    assert(0 <= k < 12);
    assert(m == (m / 12) * 12 + k);
    assert((m / 12) * 12 >= i32::MIN + 8);
    if v_is_sharp(k) {
        assert(pc.len() == 2 && pc[1] == '#');
        assert(name.drop_first()[0] == '#');
        assert(name.drop_first().drop_first() =~= d);
    } else {
        assert(pc.len() == 1);
        assert(name.drop_first() =~= d);
        crate::numbers::lemma_dec_digits(if o < 0 {
            (-o) as nat
        } else {
            o as nat
        });
        if o < 0 {
            assert(d[0] == '-');
        } else {
            assert(crate::text::is_digit(d[0]));
        }
    }
    assert(name[0] == pc[0]);
}

/// The chord a chord's text reads back as. The text is the pitch class (and `-` when the root's
/// octave is negative) without the octave's digits, and a chord token is read in octave 3: so the
/// pitch class in octave 3, or in octave -3 when the text keeps a `-`.
pub open spec fn reread_chord(c: Chord) -> Chord {
    Chord {
        root: if c.root >= 12 {
            (48 + (c.root as int) % 12) as i32
        } else {
            ((c.root as int) % 12 - 24) as i32
        },
        minor: c.minor,
    }
}

/// A chord's text: the name of its pitch class, `-` when its octave is negative, `m` if minor.
#[verifier::spinoff_prover]
#[verifier::rlimit(30)]
pub proof fn lemma_chord_text_class(c: Chord)
    ensures
        spec_chord_str(c) == pc_name((c.root as int) % 12) + (if c.root >= 12 {
            seq![]
        } else {
            seq!['-']
        }) + (if c.minor {
            seq!['m']
        } else {
            seq![]
        }),
{
    let m = c.root as int;
    let k = m % 12;
    let o = m / 12 - 1;
    let pc = pc_name(k);
    let name = spec_note_name(m);
    assert(0 <= k < 12);
    assert forall|i: int| 0 <= i < pc.len() implies #[trigger] non_digit_pred()(pc[i]) by {}
    if m >= 12 {
        assert(o >= 0);
        crate::numbers::lemma_dec_digits(o as nat);
        let d = dec(o as nat);
        assert(name == pc + d);
        assert(is_digit(d[0]));
        assert forall|i: int| 0 <= i < pc.len() implies #[trigger] non_digit_pred()(name[i]) by {
            assert(name[i] == pc[i]);
        }
        assert(name[pc.len() as int] == d[0]);
        lemma_run_len(name, non_digit_pred(), 0, pc.len() as int);
        assert(name.skip(0) =~= name);
        assert(name.take(pc.len() as int) =~= pc);
        assert(pc + Seq::<char>::empty() =~= pc);
    } else {
        assert(o < 0);
        crate::numbers::lemma_dec_digits((-o) as nat);
        let d = dec((-o) as nat);
        let pre = pc + seq!['-'];
        assert(name == pc + (seq!['-'] + d));
        assert(name =~= pre + d);
        assert(is_digit(d[0]));
        assert forall|i: int| 0 <= i < pre.len() implies #[trigger] non_digit_pred()(name[i]) by {
            assert(name[i] == pre[i]);
        }
        assert(name[pre.len() as int] == d[0]);
        lemma_run_len(name, non_digit_pred(), 0, pre.len() as int);
        assert(name.skip(0) =~= name);
        assert(name.take(pre.len() as int) =~= pre);
    }
}

/// Reading back the text `chord_str` writes for a root in octave -3 gives the same chord.
#[verifier::spinoff_prover]
#[verifier::rlimit(30)]
pub proof fn lemma_chord_round_trip_low(c: Chord)
    requires
        -24 <= c.root <= -13,
    ensures
        spec_parse_chord(spec_chord_str(c)) == Scan::Read(c),
{
    let m = c.root as int;
    let k = m % 12;
    let pc = pc_name(k);
    let name = spec_note_name(m);
    assert(m / 12 - 1 == -3);
    assert(dec((3) as nat) == seq![crate::numbers::digit_char(3)]);
    assert(dec_int(-3) == seq!['-'] + dec(3));
    let pre = pc + seq!['-'];
    assert(name =~= pre + seq!['3']);
    lemma_chord_text_class(c);
    let text = spec_chord_str(c);
    assert(text == pre + (if c.minor {
        seq!['m']
    } else {
        seq![]
    }));
    assert forall|i: int| 0 <= i < text.len() implies !crate::text::is_ws(#[trigger] text[i]) by {
        if i < pc.len() {
            assert(text[i] == pc[i]);
        }
    }
    crate::text::lemma_trim_no_ws(text);
    let t = crate::text::trim(text);
    if c.minor {
        assert(t.drop_last() =~= pre);
    } else {
        assert(t =~= pre);
        assert(t.last() != 'm');
    }
    assert(pre.push('3') =~= name);
    lemma_note_name_round_trip(m);
}

/// Any chord's text reads back, as the chord `reread_chord` gives; its text is that chord's text.
#[verifier::spinoff_prover]
#[verifier::rlimit(30)]
pub proof fn lemma_chord_reads_back(c: Chord)
    ensures
        spec_parse_chord(spec_chord_str(c)) == Scan::Read(reread_chord(c)),
        spec_chord_str(reread_chord(c)) == spec_chord_str(c),
{
    let r = reread_chord(c);
    lemma_chord_text_class(c);
    lemma_chord_text_class(r);
    assert((r.root as int) % 12 == (c.root as int) % 12);
    if c.root >= 12 {
        lemma_chord_round_trip(r);
    } else {
        lemma_chord_round_trip_low(r);
    }
}

pub open spec fn v_is_sharp(k: int) -> bool {
    k == 1 || k == 3 || k == 6 || k == 8 || k == 10
}

/// Reading back the text `chord_str` writes gives the same chord, for a root in octave 3 (the
/// octave chord tokens are read in).
pub proof fn lemma_chord_round_trip(c: Chord)
    requires
        48 <= c.root <= 59,
    ensures
        spec_parse_chord(spec_chord_str(c)) == Scan::Read(c),
{
    let m = c.root as int;
    let k = m % 12;
    let pc = pc_name(k);
    let name = spec_note_name(m);
    assert(m / 12 - 1 == 3);
    assert(dec_int(3) == dec(3));
    assert(dec(3) == seq![crate::numbers::digit_char(3)]);
    assert(name == pc + seq!['3']);
    assert forall|i: int| 0 <= i < pc.len() implies #[trigger] non_digit_pred()(name[i]) by {
        assert(name[i] == pc[i]);
    }
    lemma_run_len(name, non_digit_pred(), 0, pc.len() as int);
    assert(name.skip(0) =~= name);
    assert(name.take(pc.len() as int) =~= pc);
    let text = spec_chord_str(c);
    assert(text == pc + (if c.minor {
        seq!['m']
    } else {
        seq![]
    }));
    crate::text::lemma_trim_no_ws(text);
    let t = crate::text::trim(text);
    if c.minor {
        assert(t.drop_last() =~= pc);
    } else {
        assert(t =~= pc);
        assert(t.last() != 'm');
    }
    assert(pc.push('3') =~= name);
    lemma_note_name_round_trip(m);
}

} // verus!
