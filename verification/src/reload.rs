//! Reading back what `to_dsl` writes: the text of a score, read by `from_str`, gives the score
//! again — the same tempo and sections and the same music in every lane; chords come back as
//! their texts name them, and knobs and FX words up to the first one starting with `#`.
use vstd::prelude::*;
use crate::text::{
    comment_cut, comment_from, eq_ic, eq_char_pred, is_ascii_ws, trim_start_char, is_digit, is_ws, lemma_lines_cons, lemma_run_len,
    lemma_run_len_bound, lemma_trail_ws, lemma_trim_first, lemma_trim_no_ws, lemma_words_nonempty,
    lemma_words_word, lines, lower, lstrip, non_ws_pred, not_char_pred, run_len, rstrip, split_once,
    split_pieces, strip_cr, trail_ws, trim, words, ws_pred,
};
use crate::numbers::{
    all_digits, dec, dec_int, digit_pred, is_decimal, is_exp_or_empty, is_float_lit, lemma_dec_digits,
    lemma_parse_dec, parse_unsigned, pf,
};
use crate::notes::{
    Chord, Scan, bars_of, is_rest_tok, lemma_chord_round_trip, lemma_note_name_round_trip,
    non_digit_pred, notes_prefix, pc_name, phrase_prefix, read_slots, spec_chord_str, spec_note,
    spec_note_name, spec_notes_phrase, spec_notes_str, spec_parse_notes, slot_name,
};
use crate::pattern::{mark, pat_prefix, spec_parse_pattern, spec_pat_str, steps, lemma_pattern_round_trip};
use crate::section::key_lt;
use crate::dsl::{chords_joined, csv, knobs_joined, words_joined};
use crate::parse::{
    ChordScan, Draft, LineStep, dotted_line, filter_u32, find_sec, find_sec_from, keyword_line,
    lane_line, line_content, read_chords, read_knobs, read_line, read_lines, read_phase, with_section,
};
use crate::section::{SectionV, fresh_section, knobs_insert, lit_0_5, lit_0_6, lit_0_85};
use crate::pattern::{Inst, LaneV, has_hit, silent_bar};
use crate::section::{inst_named, lane_of};
use crate::score::{Voice, voice_lane};
use crate::parse::{lane_set, note_lane_set, with_drum, with_notes};
use crate::dsl::{drum_lines, drum_phase_lines, note_lines, note_phase_lines, section_drum_lines};
use crate::notes::{NoteLaneV, phrase_has_note, reread_chord, lemma_chord_reads_back, lemma_chord_text_class};
use crate::parse::set_phase;
use crate::dsl::{chords_line, fx_line, per_section, section_line, section_part, set_line};
use crate::parse::{read_dyn, section_opts, spec_parse_ramp, with_dyn};
use crate::dsl::{all_sections, header_block, knobs_block, ramp_text, spec_to_dsl};
use crate::parse::{SpecParse, finish, initial_draft, spec_from_str};
use crate::score::{
    ScoreV, bars_before, chord_in_bar, fires, laid_out, lemma_bars_before_same, lemma_sec_index, note_at,
    placed_at, score_wf, sec_index, sec_index_from,
};
use crate::section::{locate, psum, spec_phase_and_offset};
use crate::pattern::lane_at;
use crate::notes::{note_lane_bar, rest_bar};

verus! {

// ---- plain text ---------------------------------------------------------------------------------

/// No `#` of the line starts a comment: each `#` follows a char that is not ASCII whitespace.
pub open spec fn no_comment(l: Seq<char>) -> bool {
    forall|i: int| 0 <= i < l.len() && #[trigger] l[i] == '#' ==> i > 0 && !is_ascii_ws(l[i - 1])
}

/// A text without whitespace.
pub open spec fn no_ws(w: Seq<char>) -> bool {
    forall|i: int| 0 <= i < w.len() ==> !is_ws(#[trigger] w[i])
}

/// A word the reader takes as one token: non-empty, no whitespace, not starting a comment.
pub open spec fn plain_word(w: Seq<char>) -> bool {
    &&& w.len() > 0
    &&& no_ws(w)
    &&& w[0] != '#'
}

/// A text ending a line or empty.
pub open spec fn ends_nl(t: Seq<char>) -> bool {
    t.len() == 0 || t.last() == '\n'
}

pub proof fn lemma_no_comment_concat(a: Seq<char>, b: Seq<char>)
    requires
        no_comment(a),
        no_comment(b),
    ensures
        no_comment(a + b),
{
    let t = a + b;
    assert forall|i: int| 0 <= i < t.len() && #[trigger] t[i] == '#' implies i > 0 && !is_ascii_ws(
        t[i - 1],
    ) by {
        if i < a.len() {
            assert(t[i] == a[i]);
            assert(a[i] == '#');
            assert(t[i - 1] == a[i - 1]);
        } else {
            assert(t[i] == b[i - a.len()]);
            assert(b[i - a.len()] == '#');
            assert(i - a.len() > 0);
            assert(t[i - 1] == b[i - 1 - a.len()]);
        }
    }
}

/// A text without `#` has no comment.
pub proof fn lemma_no_hash(l: Seq<char>)
    requires
        forall|i: int| 0 <= i < l.len() ==> #[trigger] l[i] != '#',
    ensures
        no_comment(l),
{
}

/// A word without whitespace that does not start with `#` has no comment.
pub proof fn lemma_no_comment_word(w: Seq<char>)
    requires
        no_ws(w),
        w.len() > 0 ==> w[0] != '#',
    ensures
        no_comment(w),
{
    assert forall|i: int| 0 <= i < w.len() && #[trigger] w[i] == '#' implies i > 0 && !is_ascii_ws(
        w[i - 1],
    ) by {
        assert(!is_ws(w[i - 1]));
    }
}

pub proof fn lemma_comment_from_none(l: Seq<char>, i: int)
    requires
        0 <= i <= l.len(),
        no_comment(l),
    ensures
        comment_from(l, i) == l.len(),
    decreases l.len() - i,
{
    if i < l.len() {
        if l[i] == '#' {
            assert(i > 0 && !is_ascii_ws(l[i - 1]));
        }
        lemma_comment_from_none(l, i + 1);
    }
}

pub proof fn lemma_comment_cut_none(l: Seq<char>)
    requires
        no_comment(l),
    ensures
        comment_cut(l) == l.len(),
{
    lemma_comment_from_none(l, 0);
}

pub proof fn lemma_ends_nl_concat(a: Seq<char>, b: Seq<char>)
    requires
        ends_nl(a),
        ends_nl(b),
    ensures
        ends_nl(a + b),
{
    if b.len() > 0 {
        assert((a + b).last() == b.last());
    } else {
        assert(a + b =~= a);
    }
}

// ---- words --------------------------------------------------------------------------------------

/// Words of a concatenation split at whitespace are the words of each part.
#[verifier::rlimit(50)]
#[verifier::spinoff_prover]
pub proof fn lemma_words_concat(a: Seq<char>, b: Seq<char>)
    requires
        a.len() == 0 || is_ws(a.last()) || b.len() == 0 || is_ws(b[0]),
    ensures
        words(a + b) == words(a) + words(b),
    decreases a.len(),
{
    let t = a + b;
    if a.len() == 0 {
        assert(t =~= b);
        assert(words(a) =~= Seq::<Seq<char>>::empty());
        assert(words(a) + words(b) =~= words(b));
    } else if is_ws(a[0]) {
        assert(t[0] == a[0]);
        assert(t.drop_first() =~= a.drop_first() + b);
        if a.len() > 1 {
            assert(a.drop_first().last() == a.last());
        }
        lemma_words_concat(a.drop_first(), b);
    } else {
        lemma_run_len_bound(a, non_ws_pred());
        let n = run_len(a, non_ws_pred()) as int;
        assert(non_ws_pred()(a[0]));
        assert(n > 0);
        if n < a.len() {
            assert forall|k: int| 0 <= k < n implies !is_ws(#[trigger] t[k]) by {
                assert(t[k] == a[k]);
                assert(non_ws_pred()(a[k]));
            }
            assert forall|k: int| 0 <= k < n implies !is_ws(#[trigger] a[k]) by {
                assert(non_ws_pred()(a[k]));
            }
            assert(t[n] == a[n]);
            assert(!non_ws_pred()(a[n]));
            lemma_words_word(t, 0, n);
            lemma_words_word(a, 0, n);
            assert(t.skip(0) =~= t);
            assert(a.skip(0) =~= a);
            assert(t.skip(n) =~= a.skip(n) + b);
            assert(t.subrange(0, n) =~= a.subrange(0, n));
            if a.skip(n).len() > 0 {
                assert(a.skip(n).last() == a.last());
            }
            lemma_words_concat(a.skip(n), b);
            assert(seq![a.subrange(0, n)] + (words(a.skip(n)) + words(b)) =~= (seq![
                a.subrange(0, n),
            ] + words(a.skip(n))) + words(b));
        } else {
            // the first word is all of `a`, so `b` starts at whitespace or is empty
            assert(non_ws_pred()(a[a.len() - 1]));
            assert(!is_ws(a.last()));
            assert forall|k: int| 0 <= k < a.len() implies !is_ws(#[trigger] t[k]) by {
                assert(t[k] == a[k]);
                assert(non_ws_pred()(a[k]));
            }
            assert forall|k: int| 0 <= k < a.len() implies !is_ws(#[trigger] a[k]) by {
                assert(non_ws_pred()(a[k]));
            }
            if b.len() > 0 {
                assert(t[a.len() as int] == b[0]);
            }
            lemma_words_word(t, 0, a.len() as int);
            lemma_words_word(a, 0, a.len() as int);
            assert(t.skip(0) =~= t);
            assert(a.skip(0) =~= a);
            assert(t.skip(a.len() as int) =~= b);
            assert(t.subrange(0, a.len() as int) =~= a);
            assert(a.subrange(0, a.len() as int) =~= a);
            assert(a.skip(a.len() as int) =~= Seq::<char>::empty());
            assert(words(a.skip(a.len() as int)) =~= Seq::<Seq<char>>::empty());
            assert(seq![a] + Seq::<Seq<char>>::empty() =~= seq![a]);
        }
    }
}

/// A word without whitespace is one word.
pub proof fn lemma_words_single(w: Seq<char>)
    requires
        w.len() > 0,
        no_ws(w),
    ensures
        words(w) == seq![w],
{
    lemma_words_word(w, 0, w.len() as int);
    assert(w.skip(0) =~= w);
    assert(w.subrange(0, w.len() as int) =~= w);
    assert(w.skip(w.len() as int) =~= Seq::<char>::empty());
    assert(seq![w] + Seq::<Seq<char>>::empty() =~= seq![w]);
}

/// Whitespace only has no words.
pub proof fn lemma_words_blank(w: Seq<char>)
    requires
        forall|i: int| 0 <= i < w.len() ==> is_ws(#[trigger] w[i]),
    ensures
        words(w) == Seq::<Seq<char>>::empty(),
    decreases w.len(),
{
    if w.len() > 0 {
        assert(is_ws(w[0]));
        assert forall|i: int| 0 <= i < w.drop_first().len() implies is_ws(
            #[trigger] w.drop_first()[i],
        ) by {
            assert(w.drop_first()[i] == w[i + 1]);
        }
        lemma_words_blank(w.drop_first());
    }
}

/// Trimming keeps the words.
#[verifier::rlimit(50)]
#[verifier::spinoff_prover]
pub proof fn lemma_words_trim(x: Seq<char>)
    ensures
        words(trim(x)) == words(x),
{
    lemma_run_len_bound(x, ws_pred());
    let k = run_len(x, ws_pred()) as int;
    let l = lstrip(x);
    assert(l =~= x.skip(k));
    let pre = x.take(k);
    assert forall|i: int| 0 <= i < pre.len() implies is_ws(#[trigger] pre[i]) by {
        assert(ws_pred()(x[i]));
    }
    assert(x =~= pre + l);
    if pre.len() > 0 {
        assert(is_ws(pre.last()));
    }
    lemma_words_concat(pre, l);
    lemma_words_blank(pre);
    assert(Seq::<Seq<char>>::empty() + words(l) =~= words(l));
    crate::text::lemma_trail_ws_bound(l);
    let m = (l.len() - trail_ws(l)) as int;
    let r = rstrip(l);
    let post = l.skip(m);
    assert(r =~= l.take(m));
    assert(l =~= r + post);
    lemma_trail_ws_all(l);
    assert forall|i: int| 0 <= i < post.len() implies is_ws(#[trigger] post[i]) by {
        assert(post[i] == l[m + i]);
    }
    if post.len() > 0 {
        assert(is_ws(post[0]));
    }
    lemma_words_concat(r, post);
    lemma_words_blank(post);
    assert(words(r) + Seq::<Seq<char>>::empty() =~= words(r));
}

/// The chars `trail_ws` counts are whitespace, and the one before them is not.
pub proof fn lemma_trail_ws_all(s: Seq<char>)
    ensures
        trail_ws(s) <= s.len(),
        forall|i: int| s.len() - trail_ws(s) <= i < s.len() ==> is_ws(#[trigger] s[i]),
        trail_ws(s) < s.len() ==> !is_ws(s[s.len() - trail_ws(s) - 1]),
    decreases s.len(),
{
    if s.len() > 0 && is_ws(s.last()) {
        lemma_trail_ws_all(s.drop_last());
        assert forall|i: int| s.len() - trail_ws(s) <= i < s.len() implies is_ws(#[trigger] s[i]) by {
            if i < s.len() - 1 {
                assert(s[i] == s.drop_last()[i]);
            }
        }
        if trail_ws(s) < s.len() {
            assert(s[s.len() - trail_ws(s) - 1] == s.drop_last()[s.drop_last().len() - trail_ws(
                s.drop_last(),
            ) - 1]);
        }
    }
}

/// A text whose ends are not whitespace is its own trim.
pub proof fn lemma_trim_ends(x: Seq<char>)
    requires
        x.len() > 0,
        !is_ws(x[0]),
        !is_ws(x.last()),
    ensures
        trim(x) == x,
{
    assert(!ws_pred()(x[0]));
    assert(x.skip(0) =~= x);
    assert(lstrip(x) =~= x);
    lemma_trail_ws(x, x.len() as int);
    assert(x.take(x.len() as int) =~= x);
}

/// Trimming a text whose first char is not whitespace and that ends in one space.
pub proof fn lemma_trim_space_end(x: Seq<char>)
    requires
        x.len() > 0,
        !is_ws(x[0]),
        !is_ws(x.last()),
    ensures
        trim(x + seq![' ']) == x,
{
    let t = x + seq![' '];
    assert(t[0] == x[0]);
    assert(!ws_pred()(t[0]));
    assert(t.skip(0) =~= t);
    assert(lstrip(t) =~= t);
    assert(t[x.len() as int] == ' ');
    assert(t[x.len() - 1] == x.last());
    lemma_trail_ws(t, x.len() as int);
    assert(t.take(x.len() as int) =~= x);
}

// ---- lines --------------------------------------------------------------------------------------

/// The lines of a text that ends a line, followed by more text, are its lines then those of the rest.
pub proof fn lemma_lines_concat(a: Seq<char>, b: Seq<char>)
    requires
        ends_nl(a),
    ensures
        lines(a + b) == lines(a) + lines(b),
    decreases a.len(),
{
    let t = a + b;
    if a.len() == 0 {
        assert(t =~= b);
        assert(lines(a) =~= Seq::<Seq<char>>::empty());
        assert(lines(a) + lines(b) =~= lines(b));
    } else {
        lemma_run_len_bound(a, not_char_pred('\n'));
        let e = run_len(a, not_char_pred('\n')) as int;
        assert(!not_char_pred('\n')(a[a.len() - 1]));
        assert(e < a.len());
        assert(a[e] == '\n') by {
            assert(!not_char_pred('\n')(a[e]));
        }
        assert forall|k: int| 0 <= k < e implies #[trigger] t[k] != '\n' by {
            assert(t[k] == a[k]);
            assert(not_char_pred('\n')(a[k]));
        }
        assert forall|k: int| 0 <= k < e implies #[trigger] a[k] != '\n' by {
            assert(not_char_pred('\n')(a[k]));
        }
        assert(t[e] == '\n');
        lemma_lines_cons(t, 0, e);
        lemma_lines_cons(a, 0, e);
        assert(t.skip(0) =~= t);
        assert(a.skip(0) =~= a);
        assert(t.subrange(0, e) =~= a.subrange(0, e));
        assert(t.skip(e + 1) =~= a.skip(e + 1) + b);
        let r = a.skip(e + 1);
        if r.len() > 0 {
            assert(r.last() == a.last());
        }
        lemma_lines_concat(r, b);
        let first = seq![strip_cr(a.subrange(0, e))];
        assert(first + (lines(r) + lines(b)) =~= (first + lines(r)) + lines(b));
    }
}

/// One line and its end.
pub proof fn lemma_lines_one(l: Seq<char>)
    requires
        forall|i: int| 0 <= i < l.len() ==> #[trigger] l[i] != '\n',
        l.len() == 0 || l.last() != '\r',
    ensures
        lines(l + seq!['\n']) == seq![l],
{
    let t = l + seq!['\n'];
    assert forall|k: int| 0 <= k < l.len() implies #[trigger] t[k] != '\n' by {
        assert(t[k] == l[k]);
    }
    assert(t[l.len() as int] == '\n');
    lemma_lines_cons(t, 0, l.len() as int);
    assert(t.skip(0) =~= t);
    assert(t.subrange(0, l.len() as int) =~= l);
    assert(t.skip(l.len() as int + 1) =~= Seq::<char>::empty());
    assert(lines(Seq::<char>::empty()) =~= Seq::<Seq<char>>::empty());
    assert(seq![strip_cr(l)] + Seq::<Seq<char>>::empty() =~= seq![l]);
}

// ---- splitting ----------------------------------------------------------------------------------

/// Splitting at the first `c`, when it comes right after `a`.
pub proof fn lemma_split_once_at(a: Seq<char>, c: char, b: Seq<char>)
    requires
        forall|i: int| 0 <= i < a.len() ==> #[trigger] a[i] != c,
    ensures
        split_once(a + seq![c] + b, c) == Some((a, b)),
{
    let t = a + seq![c] + b;
    assert forall|k: int| 0 <= k < a.len() implies #[trigger] not_char_pred(c)(t[k]) by {
        assert(t[k] == a[k]);
    }
    assert(t[a.len() as int] == c);
    lemma_run_len(t, not_char_pred(c), 0, a.len() as int);
    assert(t.skip(0) =~= t);
    assert(t.take(a.len() as int) =~= a);
    assert(t.skip(a.len() as int + 1) =~= b);
}

/// A text without `c` does not split at it.
pub proof fn lemma_split_once_none(a: Seq<char>, c: char)
    requires
        forall|i: int| 0 <= i < a.len() ==> #[trigger] a[i] != c,
    ensures
        split_once(a, c) is None,
{
    assert forall|k: int| 0 <= k < a.len() implies #[trigger] not_char_pred(c)(a[k]) by {}
    lemma_run_len(a, not_char_pred(c), 0, a.len() as int);
    assert(a.skip(0) =~= a);
}

/// The pieces of two texts joined by the separator.
pub proof fn lemma_split_pieces_concat(a: Seq<char>, c: char, b: Seq<char>)
    ensures
        split_pieces(a + seq![c] + b, c) == split_pieces(a, c) + split_pieces(b, c),
    decreases a.len(),
{
    let t = a + seq![c] + b;
    lemma_run_len_bound(a, not_char_pred(c));
    let n = run_len(a, not_char_pred(c)) as int;
    assert forall|k: int| 0 <= k < n implies #[trigger] not_char_pred(c)(t[k]) by {
        assert(t[k] == a[k]);
        assert(not_char_pred(c)(a[k]));
    }
    if n < a.len() {
        assert(!not_char_pred(c)(a[n]));
        assert(t[n] == a[n]);
        lemma_run_len(t, not_char_pred(c), 0, n);
        lemma_run_len(a, not_char_pred(c), 0, n);
        assert(t.skip(0) =~= t);
        assert(a.skip(0) =~= a);
        assert(t.take(n) =~= a.take(n));
        assert(t.skip(n + 1) =~= a.skip(n + 1) + seq![c] + b);
        lemma_split_pieces_concat(a.skip(n + 1), c, b);
        assert(seq![a.take(n)] + (split_pieces(a.skip(n + 1), c) + split_pieces(b, c)) =~= (seq![
            a.take(n),
        ] + split_pieces(a.skip(n + 1), c)) + split_pieces(b, c));
    } else {
        assert(t[n] == c);
        lemma_run_len(t, not_char_pred(c), 0, n);
        assert(t.skip(0) =~= t);
        assert(t.take(n) =~= a);
        assert(t.skip(n + 1) =~= b);
    }
}

// ---- reading a text ----------------------------------------------------------------------------

/// Every whitespace char of the text is a space.
pub open spec fn spaced(t: Seq<char>) -> bool {
    forall|i: int| 0 <= i < t.len() && is_ws(#[trigger] t[i]) ==> t[i] == ' '
}

pub proof fn lemma_spaced_concat(a: Seq<char>, b: Seq<char>)
    requires
        spaced(a),
        spaced(b),
    ensures
        spaced(a + b),
{
    let t = a + b;
    assert forall|i: int| 0 <= i < t.len() && is_ws(#[trigger] t[i]) implies t[i] == ' ' by {
        if i < a.len() {
            assert(t[i] == a[i]);
        } else {
            assert(t[i] == b[i - a.len()]);
        }
    }
}

pub proof fn lemma_lines_concat_reads(st: Draft, a: Seq<Seq<char>>, b: Seq<Seq<char>>, ln: nat)
    ensures
        read_lines(st, a + b, ln) == (match read_lines(st, a, ln) {
            LineStep::Next(s1) => read_lines(s1, b, ln + a.len()),
            other => other,
        }),
    decreases a.len(),
{
    if a.len() == 0 {
        assert(a + b =~= b);
    } else {
        assert((a + b)[0] == a[0]);
        assert((a + b).drop_first() =~= a.drop_first() + b);
        match read_line(st, ln, a[0]) {
            LineStep::Next(s1) => {
                lemma_lines_concat_reads(s1, a.drop_first(), b, ln + 1);
            },
            _ => {},
        }
    }
}

/// Reading the lines of `text` from draft `st` goes on with draft `st2`, whatever the number of the
/// first line.
pub open spec fn reads_to(st: Draft, text: Seq<char>, st2: Draft) -> bool {
    forall|ln: nat| #[trigger] read_lines(st, lines(text), ln) == LineStep::Next(st2)
}

/// Reading line `l` from draft `st` goes on with draft `st2`, whatever its number.
pub open spec fn line_reads(st: Draft, l: Seq<char>, st2: Draft) -> bool {
    forall|ln: nat| #[trigger] read_line(st, ln, l) == LineStep::Next(st2)
}

pub proof fn lemma_reads_concat(st: Draft, a: Seq<char>, s1: Draft, b: Seq<char>, s2: Draft)
    requires
        ends_nl(a),
        reads_to(st, a, s1),
        reads_to(s1, b, s2),
    ensures
        reads_to(st, a + b, s2),
{
    lemma_lines_concat(a, b);
    assert forall|ln: nat| #[trigger] read_lines(st, lines(a + b), ln) == LineStep::Next(s2) by {
        lemma_lines_concat_reads(st, lines(a), lines(b), ln);
        assert(read_lines(st, lines(a), ln) == LineStep::Next(s1));
        assert(read_lines(s1, lines(b), ln + lines(a).len()) == LineStep::Next(s2));
    }
}

pub proof fn lemma_reads_nothing(st: Draft)
    ensures
        reads_to(st, seq![], st),
{
    assert(lines(Seq::<char>::empty()) =~= Seq::<Seq<char>>::empty());
}

/// A line and its end.
pub proof fn lemma_reads_line(st: Draft, l: Seq<char>, st2: Draft)
    requires
        line_reads(st, l, st2),
        spaced(l),
    ensures
        reads_to(st, l + seq!['\n'], st2),
{
    assert forall|i: int| 0 <= i < l.len() implies #[trigger] l[i] != '\n' by {
        if l[i] == '\n' {
            assert(is_ws(l[i]));
        }
    }
    if l.len() > 0 {
        if l.last() == '\r' {
            assert(is_ws(l[l.len() - 1]));
        }
    }
    lemma_lines_one(l);
    assert forall|ln: nat| #[trigger] read_lines(st, lines(l + seq!['\n']), ln) == LineStep::Next(st2) by {
        assert(read_line(st, ln, l) == LineStep::Next(st2));
        let ls = seq![l];
        assert(ls[0] == l);
        assert(ls.drop_first() =~= Seq::<Seq<char>>::empty());
        assert(read_lines(st2, ls.drop_first(), ln + 1) == LineStep::Next(st2));
        assert(read_lines(st, ls, ln) == LineStep::Next(st2));
    }
}

/// What reading a line without comment comes to: nothing for a blank line, else by its first word.
pub proof fn lemma_read_line_shape(st: Draft, ln: nat, l: Seq<char>)
    requires
        no_comment(l),
    ensures
        read_line(st, ln, l) == (if words(l).len() == 0 {
            LineStep::Next(st)
        } else if words(l)[0].contains('.') {
            dotted_line(st, ln, trim(l), words(l))
        } else {
            keyword_line(st, ln, words(l))
        }),
{
    reveal(read_line);
    lemma_comment_cut_none(l);
    assert(l.take(l.len() as int) =~= l);
    assert(line_content(l) == trim(l));
    lemma_words_trim(l);
    if trim(l).len() > 0 {
        lemma_trim_first(l);
        lemma_words_nonempty(trim(l));
    } else {
        assert(words(trim(l)) =~= Seq::<Seq<char>>::empty());
    }
}

/// A comment line changes nothing.
pub proof fn lemma_comment_reads(st: Draft, c: Seq<char>)
    requires
        c.len() > 0,
        c[0] == '#',
    ensures
        line_reads(st, c, st),
{
    reveal(read_line);
    assert forall|ln: nat| #[trigger] read_line(st, ln, c) == LineStep::Next(st) by {
        assert(comment_cut(c) == 0);
        assert(c.take(0) =~= Seq::<char>::empty());
        assert(lstrip(Seq::<char>::empty()) =~= Seq::<char>::empty());
        assert(line_content(c).len() == 0);
    }
}

/// A blank line changes nothing.
pub proof fn lemma_blank_reads(st: Draft)
    ensures
        line_reads(st, seq![], st),
{
    reveal(read_line);
    assert forall|ln: nat| #[trigger] read_line(st, ln, seq![]) == LineStep::Next(st) by {
        let e = Seq::<char>::empty();
        assert(comment_cut(e) == 0);
        assert(e.take(0) =~= e);
        assert(lstrip(e) =~= e);
        assert(line_content(e).len() == 0);
    }
}

// ---- literals -----------------------------------------------------------------------------------

/// The chars a number literal is made of.
pub open spec fn lit_char(c: char) -> bool {
    is_digit(c) || c == '.' || c == '+' || c == '-' || {
        let l = lower(c);
        l == 'e' || l == 'i' || l == 'n' || l == 'f' || l == 't' || l == 'y' || l == 'a'
    }
}

pub proof fn lemma_lit_char(c: char)
    requires
        lit_char(c),
    ensures
        !is_ws(c),
        c != '#',
        c != '>',
        c != '=',
        c != ':',
        c != ',',
{
}

pub proof fn lemma_exp_chars(e: Seq<char>)
    requires
        is_exp_or_empty(e),
    ensures
        forall|i: int| 0 <= i < e.len() ==> lit_char(#[trigger] e[i]),
{
    if e.len() > 0 {
        let t = e.drop_first();
        let signed = t.len() > 0 && (t[0] == '+' || t[0] == '-');
        let d = if signed {
            t.drop_first()
        } else {
            t
        };
        assert forall|i: int| 0 <= i < e.len() implies lit_char(#[trigger] e[i]) by {
            if i == 0 {
                assert(lower(e[0]) == 'e');
            } else if signed && i == 1 {
                assert(e[1] == t[0]);
            } else if signed {
                assert(e[i] == d[i - 2]);
                assert(is_digit(d[i - 2]));
            } else {
                assert(e[i] == d[i - 1]);
                assert(is_digit(d[i - 1]));
            }
        }
    }
}

pub proof fn lemma_decimal_chars(b: Seq<char>)
    requires
        is_decimal(b),
    ensures
        b.len() > 0,
        forall|i: int| 0 <= i < b.len() ==> lit_char(#[trigger] b[i]),
{
    lemma_run_len_bound(b, digit_pred());
    let m = run_len(b, digit_pred()) as int;
    let rest = b.skip(m);
    assert forall|i: int| 0 <= i < m implies lit_char(#[trigger] b[i]) by {
        assert(digit_pred()(b[i]));
    }
    if rest.len() > 0 && rest[0] == '.' {
        let r1 = rest.drop_first();
        lemma_run_len_bound(r1, digit_pred());
        let f = run_len(r1, digit_pred()) as int;
        let e = rest.skip(1 + f);
        lemma_exp_chars(e);
        assert forall|i: int| 0 <= i < b.len() implies lit_char(#[trigger] b[i]) by {
            if i < m {
            } else if i == m {
                assert(b[i] == rest[0]);
            } else if i <= m + f {
                assert(b[i] == r1[i - m - 1]);
                assert(digit_pred()(r1[i - m - 1]));
            } else {
                assert(b[i] == e[i - m - 1 - f]);
            }
        }
    } else {
        lemma_exp_chars(rest);
        assert forall|i: int| 0 <= i < b.len() implies lit_char(#[trigger] b[i]) by {
            if i >= m {
                assert(b[i] == rest[i - m]);
            }
        }
    }
}

pub proof fn lemma_float_lit_chars(s: Seq<char>)
    requires
        is_float_lit(s),
    ensures
        s.len() > 0,
        forall|i: int| 0 <= i < s.len() ==> lit_char(#[trigger] s[i]),
{
    let signed = s.len() > 0 && (s[0] == '+' || s[0] == '-');
    let b = if signed {
        s.drop_first()
    } else {
        s
    };
    reveal_strlit("inf");
    reveal_strlit("infinity");
    reveal_strlit("nan");
    if eq_ic(b, "inf"@) || eq_ic(b, "infinity"@) || eq_ic(b, "nan"@) {
        assert(b.len() > 0);
        assert forall|i: int| 0 <= i < b.len() implies lit_char(#[trigger] b[i]) by {
            if eq_ic(b, "inf"@) {
                assert(lower(b[i]) == lower("inf"@[i]));
            } else if eq_ic(b, "infinity"@) {
                assert(lower(b[i]) == lower("infinity"@[i]));
            } else {
                assert(lower(b[i]) == lower("nan"@[i]));
            }
        }
    } else {
        lemma_decimal_chars(b);
    }
    assert forall|i: int| 0 <= i < s.len() implies lit_char(#[trigger] s[i]) by {
        if signed {
            if i > 0 {
                assert(s[i] == b[i - 1]);
            }
        } else {
            assert(s[i] == b[i]);
        }
    }
}

/// A number literal is one plain word without `>`, `=`, `:` or `,`, and reads as itself.
pub proof fn lemma_float_word(s: Seq<char>)
    requires
        is_float_lit(s),
    ensures
        plain_word(s),
        spaced(s),
        no_comment(s),
        forall|i: int| 0 <= i < s.len() ==> #[trigger] s[i] != '>' && s[i] != '=' && s[i] != ':',
        pf(s) == Some(s),
{
    lemma_float_lit_chars(s);
    assert forall|i: int| 0 <= i < s.len() implies !is_ws(#[trigger] s[i]) && s[i] != '#' && s[i]
        != '>' && s[i] != '=' && s[i] != ':' by {
        lemma_lit_char(s[i]);
    }
    lemma_no_comment_word(s);
    lemma_trim_no_ws(s);
}

// ---- joined words -------------------------------------------------------------------------------

pub open spec fn all_plain(ws: Seq<Seq<char>>) -> bool {
    forall|i: int| 0 <= i < ws.len() ==> plain_word(#[trigger] ws[i])
}

/// Words with whitespace between them.
pub proof fn lemma_words_gap(a: Seq<char>, sp: Seq<char>, b: Seq<char>)
    requires
        sp.len() > 0,
        forall|i: int| 0 <= i < sp.len() ==> is_ws(#[trigger] sp[i]),
    ensures
        words(a + sp + b) == words(a) + words(b),
{
    assert(is_ws(sp[0]));
    assert(is_ws(sp.last()));
    lemma_words_concat(a, sp);
    assert((a + sp).last() == sp.last());
    lemma_words_concat(a + sp, b);
    lemma_words_blank(sp);
    assert(words(a) + Seq::<Seq<char>>::empty() =~= words(a));
}

/// Plain words joined by single spaces read back as those words.
#[verifier::rlimit(50)]
#[verifier::spinoff_prover]
pub proof fn lemma_joined(ws: Seq<Seq<char>>)
    requires
        all_plain(ws),
    ensures
        words(words_joined(ws)) == ws,
        no_comment(words_joined(ws)),
        spaced(words_joined(ws)),
        ws.len() > 0 ==> words_joined(ws).len() > 0 && !is_ws(words_joined(ws)[0]) && !is_ws(
            words_joined(ws).last(),
        ) && words_joined(ws)[0] != '#',
    decreases ws.len(),
{
    let j = words_joined(ws);
    if ws.len() == 0 {
        assert(words(j) =~= Seq::<Seq<char>>::empty());
    } else if ws.len() == 1 {
        assert(plain_word(ws[0]));
        lemma_words_single(ws[0]);
        lemma_no_comment_word(ws[0]);
        assert(!is_ws(j[j.len() - 1]));
    } else {
        let a = words_joined(ws.drop_last());
        let w = ws.last();
        assert forall|i: int| 0 <= i < ws.drop_last().len() implies plain_word(
            #[trigger] ws.drop_last()[i],
        ) by {
            assert(ws.drop_last()[i] == ws[i]);
        }
        lemma_joined(ws.drop_last());
        assert(plain_word(ws[ws.len() - 1]));
        let sp = seq![' '];
        assert(is_ws(sp[0]));
        lemma_words_gap(a, sp, w);
        lemma_words_single(w);
        assert(ws.drop_last() + seq![w] =~= ws);
        lemma_no_comment_word(w);
        lemma_no_hash(sp);
        lemma_no_comment_concat(a, sp);
        lemma_no_comment_concat(a + sp, w);
        assert(spaced(sp));
        assert(spaced(w));
        lemma_spaced_concat(a, sp);
        lemma_spaced_concat(a + sp, w);
        assert(j == a + sp + w);
        assert(j[0] == a[0]);
        assert(j.last() == w.last());
        assert(!is_ws(w[w.len() - 1]));
    }
}

// ---- chords --------------------------------------------------------------------------------------

pub open spec fn chord_ok(c: Chord) -> bool {
    48 <= c.root <= 59
}

pub open spec fn chord_toks(cs: Seq<Chord>) -> Seq<Seq<char>> {
    Seq::new(cs.len(), |i: int| spec_chord_str(cs[i]))
}

pub proof fn lemma_pc_name(k: int)
    requires
        0 <= k < 12,
    ensures
        pc_name(k).len() > 0,
        'A' <= pc_name(k)[0] <= 'G',
        forall|i: int| 0 <= i < pc_name(k).len() ==> ('A' <= #[trigger] pc_name(k)[i] <= 'G' || pc_name(
            k,
        )[i] == '#'),
        forall|i: int| 0 <= i < pc_name(k).len() ==> !is_digit(#[trigger] pc_name(k)[i]),
{
}

/// A chord's text is one plain word: its pitch class name, `-` for a negative octave, `m` if
/// minor.
pub proof fn lemma_chord_text(c: Chord)
    ensures
        plain_word(spec_chord_str(c)),
{
    let k = (c.root as int) % 12;
    let pc = pc_name(k);
    lemma_pc_name(k);
    lemma_chord_text_class(c);
    let t = spec_chord_str(c);
    assert forall|i: int| 0 <= i < t.len() implies !is_ws(#[trigger] t[i]) by {
        if i < pc.len() {
            assert(t[i] == pc[i]);
        }
    }
    assert(t[0] == pc[0]);
}

/// The chords as their texts read back.
pub open spec fn reread_chords(cs: Seq<Chord>) -> Seq<Chord> {
    Seq::new(cs.len(), |i: int| reread_chord(cs[i]))
}

pub proof fn lemma_chords_joined(cs: Seq<Chord>)
    ensures
        chords_joined(cs) == words_joined(chord_toks(cs)),
    decreases cs.len(),
{
    if cs.len() > 1 {
        lemma_chords_joined(cs.drop_last());
        assert(chord_toks(cs).drop_last() =~= chord_toks(cs.drop_last()));
    }
}

pub proof fn lemma_chord_words(cs: Seq<Chord>)
    ensures
        all_plain(chord_toks(cs)),
        words(chords_joined(cs)) == chord_toks(cs),
        no_comment(chords_joined(cs)),
        spaced(chords_joined(cs)),
        cs.len() > 0 ==> chords_joined(cs).len() > 0 && !is_ws(chords_joined(cs)[0]) && !is_ws(
            chords_joined(cs).last(),
        ) && chords_joined(cs)[0] != '#',
{
    assert forall|i: int| 0 <= i < cs.len() implies plain_word(#[trigger] chord_toks(cs)[i]) by {
        lemma_chord_text(cs[i]);
    }
    lemma_chords_joined(cs);
    lemma_joined(chord_toks(cs));
}

/// The chord names read back as the chords their texts name.
pub proof fn lemma_read_chord_toks(cs: Seq<Chord>)
    ensures
        read_chords(chord_toks(cs)) == ChordScan::Chords(reread_chords(cs)),
    decreases cs.len(),
{
    if cs.len() > 0 {
        let t = chord_toks(cs);
        assert(t[0] == spec_chord_str(cs[0]));
        lemma_chord_reads_back(cs[0]);
        assert(t.drop_first() =~= chord_toks(cs.drop_first()));
        lemma_read_chord_toks(cs.drop_first());
        assert(seq![reread_chord(cs[0])] + reread_chords(cs.drop_first()) =~= reread_chords(cs));
    } else {
        assert(chord_toks(cs) =~= Seq::<Seq<char>>::empty());
        assert(reread_chords(cs) =~= Seq::<Chord>::empty());
    }
}

// ---- knobs ---------------------------------------------------------------------------------------

/// A knob key the DSL writes as one `key=value` token: no whitespace, no `=`, not starting a comment.
pub open spec fn key_ok(k: Seq<char>) -> bool {
    &&& no_ws(k)
    &&& forall|i: int| 0 <= i < k.len() ==> #[trigger] k[i] != '='
    &&& k.len() > 0 ==> k[0] != '#'
}

/// Knobs that read back: writable keys, literal values, keys strictly in order.
pub open spec fn knobs_ok(ps: Seq<(Seq<char>, Seq<char>)>) -> bool {
    &&& forall|i: int| 0 <= i < ps.len() ==> key_ok((#[trigger] ps[i]).0) && is_float_lit(ps[i].1)
    &&& forall|i: int, j: int| 0 <= i < j < ps.len() ==> key_lt(#[trigger] ps[i].0, #[trigger] ps[j].0)
}

pub open spec fn knob_tok(p: (Seq<char>, Seq<char>)) -> Seq<char> {
    p.0 + seq!['='] + p.1
}

pub open spec fn knob_toks(ps: Seq<(Seq<char>, Seq<char>)>) -> Seq<Seq<char>> {
    Seq::new(ps.len(), |i: int| knob_tok(ps[i]))
}

pub proof fn lemma_key_lt_asym(a: Seq<char>, b: Seq<char>)
    requires
        key_lt(a, b),
    ensures
        !key_lt(b, a),
        a != b,
    decreases a.len(),
{
    if a.len() > 0 && b.len() > 0 && a[0] == b[0] {
        lemma_key_lt_asym(a.drop_first(), b.drop_first());
    }
}

/// Inserting a key after all the present ones appends it.
pub proof fn lemma_knobs_insert_last(ps: Seq<(Seq<char>, Seq<char>)>, k: Seq<char>, v: Seq<char>)
    requires
        forall|i: int| 0 <= i < ps.len() ==> key_lt(#[trigger] ps[i].0, k),
    ensures
        knobs_insert(ps, k, v) == ps.push((k, v)),
    decreases ps.len(),
{
    if ps.len() > 0 {
        assert(key_lt(ps[0].0, k));
        lemma_key_lt_asym(ps[0].0, k);
        assert forall|i: int| 0 <= i < ps.drop_first().len() implies key_lt(
            #[trigger] ps.drop_first()[i].0,
            k,
        ) by {
            assert(ps.drop_first()[i] == ps[i + 1]);
        }
        lemma_knobs_insert_last(ps.drop_first(), k, v);
        assert(seq![ps[0]] + ps.drop_first().push((k, v)) =~= ps.push((k, v)));
    } else {
        assert(seq![(k, v)] =~= ps.push((k, v)));
    }
}

pub proof fn lemma_knob_tok(p: (Seq<char>, Seq<char>))
    requires
        key_ok(p.0),
        is_float_lit(p.1),
    ensures
        plain_word(knob_tok(p)),
        split_once(knob_tok(p), '=') == Some(p),
{
    lemma_float_word(p.1);
    let t = knob_tok(p);
    assert forall|i: int| 0 <= i < t.len() implies !is_ws(#[trigger] t[i]) by {
        if i < p.0.len() {
            assert(t[i] == p.0[i]);
        } else if i == p.0.len() {
            assert(t[i] == '=');
        } else {
            assert(t[i] == p.1[i - p.0.len() - 1]);
        }
    }
    if p.0.len() > 0 {
        assert(t[0] == p.0[0]);
    } else {
        assert(t[0] == '=');
    }
    lemma_split_once_at(p.0, '=', p.1);
}

pub proof fn lemma_knobs_joined(ps: Seq<(Seq<char>, Seq<char>)>)
    ensures
        knobs_joined(ps) == words_joined(knob_toks(ps)),
    decreases ps.len(),
{
    if ps.len() > 1 {
        lemma_knobs_joined(ps.drop_last());
        assert(knob_toks(ps).drop_last() =~= knob_toks(ps.drop_last()));
        assert(knobs_joined(ps) =~= words_joined(knob_toks(ps.drop_last())) + seq![' '] + knob_tok(
            ps.last(),
        ));
    } else if ps.len() == 1 {
        assert(knob_toks(ps)[0] == knob_tok(ps[0]));
    }
}

pub proof fn lemma_knob_words(ps: Seq<(Seq<char>, Seq<char>)>)
    requires
        knobs_ok(ps),
    ensures
        all_plain(knob_toks(ps)),
        words(knobs_joined(ps)) == knob_toks(ps),
        no_comment(knobs_joined(ps)),
        spaced(knobs_joined(ps)),
        ps.len() > 0 ==> knobs_joined(ps).len() > 0 && !is_ws(knobs_joined(ps)[0]) && !is_ws(
            knobs_joined(ps).last(),
        ) && knobs_joined(ps)[0] != '#',
{
    assert forall|i: int| 0 <= i < ps.len() implies plain_word(#[trigger] knob_toks(ps)[i]) by {
        lemma_knob_tok(ps[i]);
    }
    lemma_knobs_joined(ps);
    lemma_joined(knob_toks(ps));
}

/// A token the writer puts after a space that starts with `#`: there it starts a comment.
pub open spec fn hashed(w: Seq<char>) -> bool {
    w.len() > 0 && w[0] == '#'
}

/// The first knob from `i` on whose key starts with `#` (the count when there is none).
pub open spec fn first_hashed_key(ps: Seq<(Seq<char>, Seq<char>)>, i: int) -> int
    decreases ps.len() - i,
{
    if i >= ps.len() {
        ps.len() as int
    } else if hashed(ps[i].0) {
        i
    } else {
        first_hashed_key(ps, i + 1)
    }
}

/// The knobs a `set` line gives back: those before the first key starting with `#`.
pub open spec fn kept_knobs(ps: Seq<(Seq<char>, Seq<char>)>) -> Seq<(Seq<char>, Seq<char>)> {
    ps.take(first_hashed_key(ps, 0))
}

/// The first word from `i` on that starts with `#` (the count when there is none).
pub open spec fn first_hashed_word(ws: Seq<Seq<char>>, i: int) -> int
    decreases ws.len() - i,
{
    if i >= ws.len() {
        ws.len() as int
    } else if hashed(ws[i]) {
        i
    } else {
        first_hashed_word(ws, i + 1)
    }
}

/// The FX words an FX line gives back: those before the first starting with `#`.
pub open spec fn kept_fx(fx: Option<Seq<Seq<char>>>) -> Option<Seq<Seq<char>>> {
    match fx {
        Some(f) => Some(f.take(first_hashed_word(f, 0))),
        None => None,
    }
}

/// Words the writer can put on a line: non-empty, no whitespace.
pub open spec fn all_cut(ws: Seq<Seq<char>>) -> bool {
    forall|k: int| 0 <= k < ws.len() ==> (#[trigger] ws[k]).len() > 0 && no_ws(ws[k])
}

/// Knobs the writer can put on a line: keys without whitespace or `=`, literal values, keys in
/// order (a key may start with `#`).
pub open spec fn knobs_writable(ps: Seq<(Seq<char>, Seq<char>)>) -> bool {
    &&& forall|i: int|
        0 <= i < ps.len() ==> no_ws((#[trigger] ps[i]).0) && (forall|c: int|
            0 <= c < ps[i].0.len() ==> #[trigger] ps[i].0[c] != '=') && is_float_lit(ps[i].1)
    &&& forall|i: int, j: int| 0 <= i < j < ps.len() ==> key_lt(#[trigger] ps[i].0, #[trigger] ps[j].0)
}

pub proof fn lemma_first_hashed_key(ps: Seq<(Seq<char>, Seq<char>)>, i: int)
    requires
        0 <= i <= ps.len(),
    ensures
        i <= first_hashed_key(ps, i) <= ps.len(),
        forall|k: int| i <= k < first_hashed_key(ps, i) ==> !hashed(#[trigger] ps[k].0),
        first_hashed_key(ps, i) < ps.len() ==> hashed(ps[first_hashed_key(ps, i)].0),
    decreases ps.len() - i,
{
    if i < ps.len() && !hashed(ps[i].0) {
        lemma_first_hashed_key(ps, i + 1);
    }
}

pub proof fn lemma_first_hashed_word(ws: Seq<Seq<char>>, i: int)
    requires
        0 <= i <= ws.len(),
    ensures
        i <= first_hashed_word(ws, i) <= ws.len(),
        forall|k: int| i <= k < first_hashed_word(ws, i) ==> !hashed(#[trigger] ws[k]),
        first_hashed_word(ws, i) < ws.len() ==> hashed(ws[first_hashed_word(ws, i)]),
    decreases ws.len() - i,
{
    if i < ws.len() && !hashed(ws[i]) {
        lemma_first_hashed_word(ws, i + 1);
    }
}

/// The knobs kept are knobs the DSL writes faithfully; all are when no key starts with `#`.
pub proof fn lemma_kept_knobs(ps: Seq<(Seq<char>, Seq<char>)>)
    requires
        knobs_writable(ps),
    ensures
        knobs_ok(kept_knobs(ps)),
        (forall|i: int| 0 <= i < ps.len() ==> !hashed(#[trigger] ps[i].0)) ==> kept_knobs(ps) == ps,
        knobs_ok(ps) ==> kept_knobs(ps) == ps,
{
    lemma_first_hashed_key(ps, 0);
    let j = first_hashed_key(ps, 0);
    let kp = kept_knobs(ps);
    assert forall|i: int| 0 <= i < kp.len() implies key_ok((#[trigger] kp[i]).0) && is_float_lit(
        kp[i].1,
    ) by {
        assert(kp[i] == ps[i]);
        assert(!hashed(ps[i].0));
    }
    assert forall|i: int, k: int| 0 <= i < k < kp.len() implies key_lt(#[trigger] kp[i].0, #[trigger] kp[k].0) by {
        assert(kp[i] == ps[i] && kp[k] == ps[k]);
    }
    if forall|i: int| 0 <= i < ps.len() ==> !hashed(#[trigger] ps[i].0) {
        if j < ps.len() {
            assert(!hashed(ps[j].0));
        }
        assert(kp =~= ps);
    }
    if knobs_ok(ps) {
        assert forall|i: int| 0 <= i < ps.len() implies !hashed(#[trigger] ps[i].0) by {
            assert(key_ok(ps[i].0));
        }
        if j < ps.len() {
            assert(!hashed(ps[j].0));
        }
        assert(kp =~= ps);
    }
}

/// The FX words kept are plain words; all are when none starts with `#`.
pub proof fn lemma_kept_fx(f: Seq<Seq<char>>)
    requires
        all_cut(f),
    ensures
        all_plain(f.take(first_hashed_word(f, 0))),
        all_plain(f) ==> f.take(first_hashed_word(f, 0)) == f,
{
    lemma_first_hashed_word(f, 0);
    let j = first_hashed_word(f, 0);
    let kf = f.take(j);
    assert forall|i: int| 0 <= i < kf.len() implies plain_word(#[trigger] kf[i]) by {
        assert(kf[i] == f[i]);
        assert(!hashed(f[i]));
    }
    if all_plain(f) {
        if j < f.len() {
            assert(plain_word(f[j]));
        }
        assert(kf =~= f);
    }
}

/// Joined words split at a word boundary.
pub proof fn lemma_joined_split(ws: Seq<Seq<char>>, j: int)
    requires
        0 < j < ws.len(),
    ensures
        words_joined(ws) == words_joined(ws.take(j)) + seq![' '] + words_joined(ws.skip(j)),
    decreases ws.len(),
{
    if j == ws.len() - 1 {
        assert(ws.drop_last() =~= ws.take(j));
        assert(ws.skip(j) =~= seq![ws.last()]);
    } else {
        lemma_joined_split(ws.drop_last(), j);
        assert(ws.drop_last().take(j) =~= ws.take(j));
        let t = ws.skip(j);
        assert(ws.drop_last().skip(j) =~= t.drop_last());
        assert(t.len() > 1);
        assert(t.last() == ws.last());
    }
}

/// Joined words start with the first word's first char.
pub proof fn lemma_joined_first(ws: Seq<Seq<char>>)
    requires
        ws.len() > 0,
        ws[0].len() > 0,
    ensures
        words_joined(ws).len() > 0,
        words_joined(ws)[0] == ws[0][0],
    decreases ws.len(),
{
    if ws.len() > 1 {
        lemma_joined_first(ws.drop_last());
    }
}

/// Words without whitespace joined by spaces have no whitespace but spaces.
pub proof fn lemma_joined_spaced(ws: Seq<Seq<char>>)
    requires
        forall|k: int| 0 <= k < ws.len() ==> no_ws(#[trigger] ws[k]),
    ensures
        spaced(words_joined(ws)),
    decreases ws.len(),
{
    if ws.len() == 1 {
        assert(no_ws(ws[0]));
    } else if ws.len() > 1 {
        lemma_joined_spaced(ws.drop_last());
        assert(no_ws(ws.last()));
        assert(spaced(seq![' ']));
        lemma_spaced_concat(words_joined(ws.drop_last()), seq![' ']);
        lemma_spaced_concat(words_joined(ws.drop_last()) + seq![' '], ws.last());
    }
}

pub proof fn lemma_comment_from_cut(a: Seq<char>, b: Seq<char>, i: int)
    requires
        0 <= i <= a.len(),
        no_comment(a),
        b.len() >= 2,
        b[0] == ' ',
        b[1] == '#',
    ensures
        comment_from(a + b, i) == a.len() + 1,
    decreases a.len() + 1 - i,
{
    let l = a + b;
    if i < a.len() {
        if l[i] == '#' {
            assert(l[i] == a[i]);
            assert(l[i - 1] == a[i - 1]);
        }
        lemma_comment_from_cut(a, b, i + 1);
    } else {
        assert(l[i] == ' ');
        assert(l[i + 1] == '#');
        assert(is_ascii_ws(l[i]));
        assert(comment_from(l, i + 1) == i + 1);
    }
}

/// A line that runs on past a space and a `#` reads as its text up to that space.
pub proof fn lemma_read_line_cut(st: Draft, ln: nat, a: Seq<char>, b: Seq<char>)
    requires
        no_comment(a),
        b.len() >= 2,
        b[0] == ' ',
        b[1] == '#',
    ensures
        read_line(st, ln, a + b) == read_line(st, ln, a + seq![' ']),
{
    reveal(read_line);
    let l = a + b;
    lemma_comment_from_cut(a, b, 0);
    let a2 = a + seq![' '];
    assert(l.take(a.len() + 1int) =~= a2);
    assert forall|i: int| 0 <= i < a2.len() && #[trigger] a2[i] == '#' implies i > 0 && !is_ascii_ws(
        a2[i - 1],
    ) by {
        assert(a2[i] == a[i]);
        assert(a2[i - 1] == a[i - 1]);
    }
    lemma_comment_cut_none(a2);
    assert(a2.take(a2.len() as int) =~= a2);
}

/// The knob tokens of a `set` line, read from the `j`-th on, set the global knobs.
#[verifier::rlimit(50)]
#[verifier::spinoff_prover]
pub proof fn lemma_read_knobs_global(st: Draft, ln: nat, ps: Seq<(Seq<char>, Seq<char>)>, j: int)
    requires
        knobs_ok(ps),
        0 <= j <= ps.len(),
        st.params == ps.take(j),
    ensures
        read_knobs(st, ln, None, seq![], knob_toks(ps).skip(j)) == LineStep::Next(
            Draft { params: ps, ..st },
        ),
    decreases ps.len() - j,
{
    let toks = knob_toks(ps).skip(j);
    if j == ps.len() {
        assert(toks.len() == 0);
        assert(ps.take(j) =~= ps);
        assert(Draft { params: ps, ..st } =~= st);
    } else {
        assert(toks[0] == knob_tok(ps[j]));
        lemma_knob_tok(ps[j]);
        let st2 = Draft { params: knobs_insert(st.params, ps[j].0, ps[j].1), ..st };
        assert forall|i: int| 0 <= i < ps.take(j).len() implies key_lt(#[trigger] ps.take(j)[i].0, ps[j].0) by {
            assert(ps.take(j)[i] == ps[i]);
        }
        lemma_knobs_insert_last(ps.take(j), ps[j].0, ps[j].1);
        assert(ps.take(j).push((ps[j].0, ps[j].1)) =~= ps.take(j + 1));
        assert(toks.drop_first() =~= knob_toks(ps).skip(j + 1));
        lemma_read_knobs_global(st2, ln, ps, j + 1);
        assert(Draft { params: ps, ..st2 } =~= Draft { params: ps, ..st });
    }
}

/// The knob tokens of a `<section>.set` line, read from the `j`-th on, set the section's knobs.
#[verifier::rlimit(50)]
#[verifier::spinoff_prover]
pub proof fn lemma_read_knobs_section(
    st: Draft,
    ln: nat,
    si: int,
    sec: Seq<char>,
    ps: Seq<(Seq<char>, Seq<char>)>,
    j: int,
)
    requires
        knobs_ok(ps),
        0 <= j <= ps.len(),
        0 <= si < st.sections.len(),
        st.sections[si].params == ps.take(j),
    ensures
        read_knobs(st, ln, Some(si), sec, knob_toks(ps).skip(j)) == LineStep::Next(
            with_section(st, si, SectionV { params: ps, ..st.sections[si] }),
        ),
    decreases ps.len() - j,
{
    let toks = knob_toks(ps).skip(j);
    if j == ps.len() {
        assert(toks.len() == 0);
        assert(ps.take(j) =~= ps);
        assert(SectionV { params: ps, ..st.sections[si] } =~= st.sections[si]);
        assert(st.sections.update(si, st.sections[si]) =~= st.sections);
        assert(with_section(st, si, SectionV { params: ps, ..st.sections[si] }) =~= st);
    } else {
        assert(toks[0] == knob_tok(ps[j]));
        lemma_knob_tok(ps[j]);
        let x = st.sections[si];
        let st2 = with_section(
            st,
            si,
            SectionV { params: knobs_insert(x.params, ps[j].0, ps[j].1), ..x },
        );
        assert forall|i: int| 0 <= i < ps.take(j).len() implies key_lt(#[trigger] ps.take(j)[i].0, ps[j].0) by {
            assert(ps.take(j)[i] == ps[i]);
        }
        lemma_knobs_insert_last(ps.take(j), ps[j].0, ps[j].1);
        assert(ps.take(j).push((ps[j].0, ps[j].1)) =~= ps.take(j + 1));
        assert(toks.drop_first() =~= knob_toks(ps).skip(j + 1));
        assert(st2.sections[si].params == ps.take(j + 1));
        lemma_read_knobs_section(st2, ln, si, sec, ps, j + 1);
        assert(SectionV { params: ps, ..st2.sections[si] } =~= SectionV { params: ps, ..x });
        assert(st2.sections.update(si, SectionV { params: ps, ..x }) =~= st.sections.update(
            si,
            SectionV { params: ps, ..x },
        ));
    }
}

// ---- phase lists ---------------------------------------------------------------------------------

pub open spec fn dec_toks(ph: Seq<u32>) -> Seq<Seq<char>> {
    Seq::new(ph.len(), |i: int| dec(ph[i] as nat))
}

pub proof fn lemma_split_pieces_none(a: Seq<char>, c: char)
    requires
        forall|i: int| 0 <= i < a.len() ==> #[trigger] a[i] != c,
    ensures
        split_pieces(a, c) == seq![a],
{
    assert forall|k: int| 0 <= k < a.len() implies #[trigger] not_char_pred(c)(a[k]) by {}
    lemma_run_len(a, not_char_pred(c), 0, a.len() as int);
    assert(a.skip(0) =~= a);
}

/// A phase list's text: digits and commas, starting with a digit; its pieces are the numbers.
#[verifier::rlimit(50)]
#[verifier::spinoff_prover]
pub proof fn lemma_csv(ph: Seq<u32>)
    requires
        ph.len() > 0,
    ensures
        split_pieces(csv(ph), ',') == dec_toks(ph),
        csv(ph).len() > 0,
        is_digit(csv(ph)[0]),
        forall|i: int| 0 <= i < csv(ph).len() ==> is_digit(#[trigger] csv(ph)[i]) || csv(ph)[i] == ',',
    decreases ph.len(),
{
    let t = csv(ph);
    let d = dec(ph.last() as nat);
    lemma_dec_digits(ph.last() as nat);
    assert forall|i: int| 0 <= i < d.len() implies #[trigger] d[i] != ',' by {
        assert(is_digit(d[i]));
    }
    lemma_split_pieces_none(d, ',');
    if ph.len() == 1 {
        assert(t == d);
        assert(dec_toks(ph) =~= seq![d]);
        assert(is_digit(d[0]));
    } else {
        let a = csv(ph.drop_last());
        lemma_csv(ph.drop_last());
        assert(t == a + seq![','] + d);
        lemma_split_pieces_concat(a, ',', d);
        assert(dec_toks(ph.drop_last()) + seq![d] =~= dec_toks(ph));
        assert(t[0] == a[0]);
        assert forall|i: int| 0 <= i < t.len() implies is_digit(#[trigger] t[i]) || t[i] == ',' by {
            if i < a.len() {
                assert(t[i] == a[i]);
            } else if i > a.len() {
                assert(t[i] == d[i - a.len() - 1]);
            }
        }
    }
}

/// The numbers read back from their texts.
pub proof fn lemma_filter_dec(ph: Seq<u32>)
    ensures
        filter_u32(dec_toks(ph)) == ph,
    decreases ph.len(),
{
    if ph.len() > 0 {
        let t = dec_toks(ph);
        lemma_parse_dec(ph[0] as nat, u32::MAX as nat);
        assert(t[0] == dec(ph[0] as nat));
        assert(t.drop_first() =~= dec_toks(ph.drop_first()));
        lemma_filter_dec(ph.drop_first());
        assert(seq![ph[0]] + ph.drop_first() =~= ph);
    } else {
        assert(ph =~= Seq::<u32>::empty());
    }
}

// ---- note phrases --------------------------------------------------------------------------------

/// A pitch whose name reads back (the lowest few do not).
pub open spec fn pitch_ok(n: Option<i32>) -> bool {
    n matches Some(m) ==> m >= i32::MIN + 8
}

pub open spec fn bar_ok(g: Seq<Option<i32>>) -> bool {
    &&& g.len() == 16
    &&& forall|i: int| 0 <= i < 16 ==> pitch_ok(#[trigger] g[i])
}

pub open spec fn phrase_ok(p: Seq<Seq<Option<i32>>>) -> bool {
    forall|b: int| 0 <= b < p.len() ==> bar_ok(#[trigger] p[b])
}

pub open spec fn slot_toks(g: Seq<Option<i32>>, n: nat) -> Seq<Seq<char>> {
    Seq::new(n, |i: int| slot_name(g[i]))
}

pub open spec fn flat(p: Seq<Seq<Option<i32>>>, n: nat) -> Seq<Option<i32>> {
    Seq::new(16 * n, |k: int| p[k / 16][k % 16])
}

#[verifier::rlimit(50)]
#[verifier::spinoff_prover]
pub proof fn lemma_slot_word(x: Option<i32>)
    ensures
        plain_word(slot_name(x)),
        x is Some ==> 'A' <= slot_name(x)[0] <= 'G',
        x is None ==> slot_name(x) == seq!['.'],
{
    match x {
        Some(m) => {
            let k = (m as int) % 12;
            let o = (m as int) / 12 - 1;
            lemma_pc_name(k);
            let pc = pc_name(k);
            let d = dec_int(o);
            let n = if o < 0 {
                (-o) as nat
            } else {
                o as nat
            };
            lemma_dec_digits(n);
            let t = spec_note_name(m as int);
            assert(t == pc + d);
            assert forall|i: int| 0 <= i < t.len() implies !is_ws(#[trigger] t[i]) by {
                if i < pc.len() {
                    assert(t[i] == pc[i]);
                } else {
                    assert(t[i] == d[i - pc.len()]);
                    if o < 0 {
                        if i > pc.len() {
                            assert(d[i - pc.len()] == dec(n)[i - pc.len() - 1]);
                            assert(is_digit(dec(n)[i - pc.len() - 1]));
                        }
                    } else {
                        assert(is_digit(dec(n)[i - pc.len()]));
                    }
                }
            }
            assert(t[0] == pc[0]);
        },
        None => {},
    }
}

/// One bar's text: its slot names with spaces between them.
#[verifier::rlimit(50)]
#[verifier::spinoff_prover]
pub proof fn lemma_notes_prefix(g: Seq<Option<i32>>, n: nat)
    requires
        n <= g.len(),
    ensures
        words(notes_prefix(g, n)) == slot_toks(g, n),
        no_comment(notes_prefix(g, n)),
        spaced(notes_prefix(g, n)),
        n > 0 ==> notes_prefix(g, n).len() > 0 && !is_ws(notes_prefix(g, n)[0]) && !is_ws(
            notes_prefix(g, n).last(),
        ) && notes_prefix(g, n)[0] != '#',
    decreases n,
{
    let t = notes_prefix(g, n);
    if n == 0 {
        assert(words(t) =~= Seq::<Seq<char>>::empty());
        assert(slot_toks(g, 0) =~= Seq::<Seq<char>>::empty());
    } else {
        let i = (n - 1) as int;
        let pre = notes_prefix(g, (n - 1) as nat);
        let nm = slot_name(g[i]);
        lemma_notes_prefix(g, (n - 1) as nat);
        lemma_slot_word(g[i]);
        lemma_words_single(nm);
        lemma_no_comment_word(nm);
        assert(spaced(nm));
        let sep: Seq<char> = if i == 0 {
            seq![]
        } else if i % 4 == 0 {
            seq![' ', ' ']
        } else {
            seq![' ']
        };
        assert(t == pre + sep + nm);
        assert(slot_toks(g, (n - 1) as nat) + seq![nm] =~= slot_toks(g, n));
        if i == 0 {
            assert(pre =~= Seq::<char>::empty());
            assert(t =~= nm);
            assert(slot_toks(g, n) =~= seq![nm]);
        } else {
            assert forall|k: int| 0 <= k < sep.len() implies is_ws(#[trigger] sep[k]) by {}
            lemma_words_gap(pre, sep, nm);
            lemma_no_hash(sep);
            lemma_no_comment_concat(pre, sep);
            lemma_no_comment_concat(pre + sep, nm);
            assert(spaced(sep));
            lemma_spaced_concat(pre, sep);
            lemma_spaced_concat(pre + sep, nm);
            assert(t[0] == pre[0]);
        }
        assert(t.last() == nm.last());
        assert(!is_ws(nm[nm.len() - 1]));
    }
}

pub open spec fn phrase_toks(p: Seq<Seq<Option<i32>>>, n: nat) -> Seq<Seq<char>> {
    Seq::new(16 * n, |k: int| slot_name(p[k / 16][k % 16]))
}

/// A phrase's text: the slot names of its bars in order.
#[verifier::rlimit(50)]
#[verifier::spinoff_prover]
pub proof fn lemma_phrase_prefix(p: Seq<Seq<Option<i32>>>, n: nat)
    requires
        n <= p.len(),
        forall|b: int| 0 <= b < p.len() ==> (#[trigger] p[b]).len() == 16,
    ensures
        words(phrase_prefix(p, n)) == phrase_toks(p, n),
        no_comment(phrase_prefix(p, n)),
        spaced(phrase_prefix(p, n)),
        n > 0 ==> phrase_prefix(p, n).len() > 0 && !is_ws(phrase_prefix(p, n)[0]) && !is_ws(
            phrase_prefix(p, n).last(),
        ) && phrase_prefix(p, n)[0] != '#',
    decreases n,
{
    let t = phrase_prefix(p, n);
    if n == 0 {
        assert(words(t) =~= Seq::<Seq<char>>::empty());
        assert(phrase_toks(p, 0) =~= Seq::<Seq<char>>::empty());
    } else {
        let last = p[n - 1];
        let bt = spec_notes_str(last);
        assert(last.len() == 16);
        lemma_notes_prefix(last, 16);
        assert forall|k: int| 0 <= k < 16 * n - 16 implies #[trigger] phrase_toks(p, n)[k]
            == phrase_toks(p, (n - 1) as nat)[k] by {}
        assert forall|k: int| 16 * n - 16 <= k < 16 * n implies #[trigger] phrase_toks(p, n)[k]
            == slot_toks(last, 16)[k - (16 * n - 16)] by {
            assert(k / 16 == n - 1);
            assert(k % 16 == k - (16 * n - 16));
        }
        assert(phrase_toks(p, (n - 1) as nat) + slot_toks(last, 16) =~= phrase_toks(p, n));
        if n == 1 {
            assert(t == bt);
            assert(phrase_toks(p, 0) + slot_toks(last, 16) =~= slot_toks(last, 16));
        } else {
            let pre = phrase_prefix(p, (n - 1) as nat);
            let sep = seq![' ', ' ', ' '];
            lemma_phrase_prefix(p, (n - 1) as nat);
            assert(t == pre + sep + bt);
            assert forall|k: int| 0 <= k < sep.len() implies is_ws(#[trigger] sep[k]) by {}
            lemma_words_gap(pre, sep, bt);
            lemma_no_hash(sep);
            lemma_no_comment_concat(pre, sep);
            lemma_no_comment_concat(pre + sep, bt);
            assert(spaced(sep));
            lemma_spaced_concat(pre, sep);
            lemma_spaced_concat(pre + sep, bt);
            assert(t[0] == pre[0]);
            assert(t.last() == bt.last());
        }
    }
}

/// Slot names read back as the slots.
pub proof fn lemma_read_slot_names(xs: Seq<Option<i32>>)
    requires
        forall|i: int| 0 <= i < xs.len() ==> pitch_ok(#[trigger] xs[i]),
    ensures
        read_slots(Seq::new(xs.len(), |i: int| slot_name(xs[i]))) == Scan::Read(xs),
    decreases xs.len(),
{
    let toks = Seq::new(xs.len(), |i: int| slot_name(xs[i]));
    if xs.len() > 0 {
        let x = xs[0];
        lemma_slot_word(x);
        assert(toks[0] == slot_name(x));
        match x {
            Some(m) => {
                assert(pitch_ok(xs[0]));
                assert(slot_name(x)[0] != '.' && slot_name(x)[0] != '-' && slot_name(x)[0] != '_');
                assert(!is_rest_tok(slot_name(x)));
                lemma_note_name_round_trip(m as int);
            },
            None => {
                assert(is_rest_tok(slot_name(x)));
            },
        }
        assert(toks.drop_first() =~= Seq::new(
            xs.drop_first().len(),
            |i: int| slot_name(xs.drop_first()[i]),
        ));
        assert forall|i: int| 0 <= i < xs.drop_first().len() implies pitch_ok(
            #[trigger] xs.drop_first()[i],
        ) by {
            assert(xs.drop_first()[i] == xs[i + 1]);
        }
        lemma_read_slot_names(xs.drop_first());
        assert(seq![x] + xs.drop_first() =~= xs);
    } else {
        assert(toks =~= Seq::<Seq<char>>::empty());
        assert(xs =~= Seq::<Option<i32>>::empty());
    }
}

/// A written phrase (after the `: `) reads back as the phrase.
#[verifier::rlimit(50)]
#[verifier::spinoff_prover]
pub proof fn lemma_parse_phrase(p: Seq<Seq<Option<i32>>>)
    requires
        p.len() > 0,
        phrase_ok(p),
    ensures
        spec_parse_notes(seq![' '] + spec_notes_phrase(p)) == Scan::Read(p),
        no_comment(seq![' '] + spec_notes_phrase(p)),
        spaced(seq![' '] + spec_notes_phrase(p)),
        !is_ws(spec_notes_phrase(p).last()),
        spec_notes_phrase(p).len() > 0,
{
    let n = p.len();
    let t = spec_notes_phrase(p);
    let sp = seq![' '];
    assert forall|b: int| 0 <= b < p.len() implies (#[trigger] p[b]).len() == 16 by {
        assert(bar_ok(p[b]));
    }
    lemma_phrase_prefix(p, n);
    assert(is_ws(sp[0]));
    lemma_words_concat(sp, t);
    lemma_words_blank(sp);
    assert(Seq::<Seq<char>>::empty() + words(t) =~= words(t));
    let fl = flat(p, n);
    assert(phrase_toks(p, n) =~= Seq::new(fl.len(), |i: int| slot_name(fl[i])));
    assert forall|i: int| 0 <= i < fl.len() implies pitch_ok(#[trigger] fl[i]) by {
        assert(bar_ok(p[i / 16]));
        assert(pitch_ok(p[i / 16][i % 16]));
    }
    lemma_read_slot_names(fl);
    assert((16 * n) % 16 == 0) by (nonlinear_arith);
    assert((16 * n) / 16 == n) by (nonlinear_arith);
    assert forall|b: int| 0 <= b < n implies #[trigger] bars_of(fl)[b] == p[b] by {
        assert forall|i: int| 0 <= i < 16 implies #[trigger] fl.subrange(16 * b, 16 * b + 16)[i]
            == p[b][i] by {
            assert((16 * b + i) / 16 == b) by (nonlinear_arith)
                requires
                    0 <= i < 16,
            ;
            assert((16 * b + i) % 16 == i) by (nonlinear_arith)
                requires
                    0 <= i < 16,
            ;
        }
        assert(fl.subrange(16 * b, 16 * b + 16) =~= p[b]);
    }
    assert(bars_of(fl) =~= p);
    lemma_no_hash(sp);
    lemma_no_comment_concat(sp, t);
    assert(spaced(sp));
    lemma_spaced_concat(sp, t);
}

// ---- drum grids ----------------------------------------------------------------------------------

pub proof fn lemma_pat_prefix_chars(g: Seq<bool>, n: nat)
    requires
        n <= g.len(),
    ensures
        forall|i: int| 0 <= i < pat_prefix(g, n).len() ==> #[trigger] pat_prefix(g, n)[i] == 'x'
            || pat_prefix(g, n)[i] == '.' || pat_prefix(g, n)[i] == ' ',
        n > 0 ==> pat_prefix(g, n).len() > 0 && pat_prefix(g, n)[0] == mark(g[0]) && pat_prefix(
            g,
            n,
        ).last() == mark(g[n - 1]),
    decreases n,
{
    if n > 0 {
        let i = (n - 1) as int;
        lemma_pat_prefix_chars(g, (n - 1) as nat);
        let pre = pat_prefix(g, (n - 1) as nat);
        let sep: Seq<char> = if i > 0 && i % 4 == 0 {
            seq![' ']
        } else {
            seq![]
        };
        let t = pat_prefix(g, n);
        assert(t == pre + sep + seq![mark(g[i])]);
        assert forall|k: int| 0 <= k < t.len() implies #[trigger] t[k] == 'x' || t[k] == '.' || t[k]
            == ' ' by {
            if k < pre.len() {
                assert(t[k] == pre[k]);
            } else if k < pre.len() + sep.len() {
                assert(t[k] == sep[k - pre.len()]);
            } else {
                assert(t[k] == mark(g[i]));
            }
        }
        if i == 0 {
            assert(pre.len() == 0);
            assert(t[0] == mark(g[0]));
        } else {
            assert(t[0] == pre[0]);
        }
    }
}

/// A written grid (after the `: `) reads back as the grid.
pub proof fn lemma_parse_grid(g: Seq<bool>)
    requires
        g.len() == 16,
    ensures
        spec_parse_pattern(seq![' '] + spec_pat_str(g)) == Some(g),
        no_comment(seq![' '] + spec_pat_str(g)),
        spaced(seq![' '] + spec_pat_str(g)),
        spec_pat_str(g).len() > 0,
        !is_ws(spec_pat_str(g).last()),
{
    let t = spec_pat_str(g);
    let u = seq![' '] + t;
    lemma_pattern_round_trip(g);
    assert(u[0] == ' ');
    assert(u.drop_first() =~= t);
    assert(steps(u) == steps(t));
    lemma_pat_prefix_chars(g, 16);
    assert forall|k: int| 0 <= k < u.len() implies #[trigger] u[k] != '#' && (is_ws(u[k]) ==> u[k]
        == ' ') by {
        if k > 0 {
            assert(u[k] == t[k - 1]);
        }
    }
    lemma_no_hash(u);
    assert(t.last() == 'x' || t.last() == '.');
}

// ---- finding sections ---------------------------------------------------------------------------

/// Section names that are all different.
pub open spec fn names_distinct(secs: Seq<SectionV>) -> bool {
    forall|i: int, j: int| 0 <= i < j < secs.len() ==> (#[trigger] secs[i]).name != (#[trigger] secs[j]).name
}

pub proof fn lemma_find_sec_unique(secs: Seq<SectionV>, i: int, k: int)
    requires
        0 <= k <= i < secs.len(),
        names_distinct(secs),
    ensures
        find_sec_from(secs, secs[i].name, k) == Some(i),
    decreases i - k,
{
    if k < i {
        assert(secs[k].name != secs[i].name);
        lemma_find_sec_unique(secs, i, k + 1);
    }
}

/// In a list of distinct names, the section named like section `i` is section `i`.
pub proof fn lemma_find_sec(secs: Seq<SectionV>, i: int)
    requires
        0 <= i < secs.len(),
        names_distinct(secs),
    ensures
        find_sec(secs, secs[i].name) == Some(i),
{
    lemma_find_sec_unique(secs, i, 0);
}

// ---- lines of a section's text -------------------------------------------------------------------

/// A section name the DSL can write and find again: a plain word without `.` or `:`.
pub open spec fn name_ok(n: Seq<char>) -> bool {
    &&& plain_word(n)
    &&& forall|i: int| 0 <= i < n.len() ==> #[trigger] n[i] != '.' && n[i] != ':'
}

/// `<name>.<inst>[ <tok>]:<pat>`.
pub open spec fn colon_line(name: Seq<char>, inst: Seq<char>, tok: Option<Seq<char>>, pat: Seq<char>) -> Seq<char> {
    let mid = match tok {
        Some(t) => seq![' '] + t,
        None => seq![],
    };
    name + seq!['.'] + inst + mid + seq![':'] + pat
}

/// A word of the DSL after a section name: no whitespace, `.`, `:` or `#`.
pub open spec fn tag_ok(w: Seq<char>) -> bool {
    &&& w.len() > 0
    &&& forall|i: int| 0 <= i < w.len() ==> !is_ws(#[trigger] w[i]) && w[i] != '.' && w[i] != ':' && w[i] != '#'
}

pub proof fn lemma_no_colon_concat(a: Seq<char>, b: Seq<char>)
    requires
        forall|i: int| 0 <= i < a.len() ==> #[trigger] a[i] != ':',
        forall|i: int| 0 <= i < b.len() ==> #[trigger] b[i] != ':',
    ensures
        forall|i: int| 0 <= i < (a + b).len() ==> #[trigger] (a + b)[i] != ':',
{
    assert forall|i: int| 0 <= i < (a + b).len() implies #[trigger] (a + b)[i] != ':' by {
        if i < a.len() {
            assert((a + b)[i] == a[i]);
        } else {
            assert((a + b)[i] == b[i - a.len()]);
        }
    }
}

/// What reading a `<section>.<inst>[ <phase>]: <data>` line comes to.
#[verifier::rlimit(50)]
#[verifier::spinoff_prover]
pub proof fn lemma_colon_line(
    st: Draft,
    ln: nat,
    name: Seq<char>,
    inst: Seq<char>,
    tok: Option<Seq<char>>,
    pat: Seq<char>,
    si: int,
    ph: Option<nat>,
)
    requires
        name_ok(name),
        tag_ok(inst),
        inst != "set"@,
        tok matches Some(t) ==> tag_ok(t),
        pat.len() == 0 || (pat[0] == ' ' && !is_ws(pat.last())),
        no_comment(pat),
        spaced(pat),
        find_sec(st.sections, name) == Some(si),
        read_phase(
            match tok {
                Some(t) => t,
                None => seq!['p', '0'],
            },
        ) == Some(ph),
    ensures
        read_line(st, ln, colon_line(name, inst, tok, pat)) == lane_line(st, ln, si, inst, ph, pat),
        spaced(colon_line(name, inst, tok, pat)),
        no_comment(colon_line(name, inst, tok, pat)),
{
    let l = colon_line(name, inst, tok, pat);
    let mid = match tok {
        Some(t) => seq![' '] + t,
        None => seq![],
    };
    let dot = seq!['.'];
    let colon = seq![':'];
    let ni = name + dot + inst;
    let head = ni + mid;
    assert(l == head + colon + pat);
    // no comment, spaced
    lemma_no_comment_word(name);
    lemma_no_hash(dot);
    lemma_no_hash(inst);
    lemma_no_hash(colon);
    lemma_no_comment_concat(name, dot);
    lemma_no_comment_concat(name + dot, inst);
    assert forall|i: int| 0 <= i < mid.len() implies #[trigger] mid[i] != '#' && mid[i] != ':' && (is_ws(mid[i]) ==> mid[i] == ' ') by {
        if let Some(t) = tok {
            if i > 0 {
                assert(mid[i] == t[i - 1]);
            }
        }
    }
    lemma_no_hash(mid);
    lemma_no_comment_concat(ni, mid);
    lemma_no_comment_concat(head, colon);
    lemma_no_comment_concat(head + colon, pat);
    assert(spaced(name));
    assert(spaced(inst));
    assert(spaced(dot));
    assert(spaced(colon));
    assert(spaced(mid));
    lemma_spaced_concat(name, dot);
    lemma_spaced_concat(name + dot, inst);
    lemma_spaced_concat(ni, mid);
    lemma_spaced_concat(head, colon);
    lemma_spaced_concat(head + colon, pat);
    // no colon in the head
    assert forall|i: int| 0 <= i < ni.len() implies #[trigger] ni[i] != ':' by {
        if i < name.len() {
            assert(ni[i] == name[i]);
        } else if i == name.len() {
            assert(ni[i] == '.');
        } else {
            assert(ni[i] == inst[i - name.len() - 1]);
        }
    }
    lemma_no_colon_concat(ni, mid);
    lemma_split_once_at(head, ':', pat);
    // the trimmed line is the line
    assert(l[0] == name[0]);
    if pat.len() > 0 {
        assert(l.last() == pat.last());
    } else {
        assert(l.last() == ':');
    }
    lemma_trim_ends(l);
    // the first word
    assert(no_ws(ni)) by {
        assert forall|i: int| 0 <= i < ni.len() implies !is_ws(#[trigger] ni[i]) by {
            if i < name.len() {
                assert(ni[i] == name[i]);
            } else if i > name.len() {
                assert(ni[i] == inst[i - name.len() - 1]);
            }
        }
    }
    lemma_words_single(ni);
    let first: Seq<char> = match tok {
        Some(t) => ni,
        None => ni + colon,
    };
    let after: Seq<char> = match tok {
        Some(t) => inst,
        None => inst + colon,
    };
    match tok {
        Some(t) => {
            assert(l == ni + seq![' '] + (t + colon + pat));
            lemma_words_gap(ni, seq![' '], t + colon + pat);
            assert(is_ws(seq![' '][0]));
            lemma_words_gap(ni, seq![' '], t);
            lemma_words_single(t);
            assert(head =~= ni + seq![' '] + t);
            assert(words(head) == seq![ni] + seq![t]);
        },
        None => {
            assert(l == (ni + colon) + pat);
            assert(no_ws(ni + colon)) by {
                assert forall|i: int| 0 <= i < (ni + colon).len() implies !is_ws(#[trigger] (ni + colon)[i]) by {
                    if i < ni.len() {
                        assert((ni + colon)[i] == ni[i]);
                    }
                }
            }
            lemma_words_single(ni + colon);
            lemma_words_concat(ni + colon, pat);
            assert(head =~= ni);
        },
    }
    assert(words(l)[0] == first);
    assert(first =~= name + dot + after);
    assert(first[name.len() as int] == '.');
    assert(first.contains('.'));
    assert forall|i: int| 0 <= i < name.len() implies #[trigger] name[i] != '.' by {}
    lemma_split_once_at(name, '.', after);
    lemma_split_once_at(name, '.', inst);
    assert(ni =~= name + dot + inst);
    reveal_strlit("set");
    if after == "set"@ {
        match tok {
            Some(t) => {},
            None => {
                assert(after.last() == ':');
                assert("set"@.last() == 't');
            },
        }
    }
    lemma_read_line_shape(st, ln, l);
}

/// A line with one space after it reads as the line.
pub proof fn lemma_read_line_space(st: Draft, ln: nat, l: Seq<char>)
    requires
        l.len() > 0,
        !is_ws(l[0]),
        !is_ws(l.last()),
        no_comment(l),
    ensures
        read_line(st, ln, l + seq![' ']) == read_line(st, ln, l),
        no_comment(l + seq![' ']),
{
    reveal(read_line);
    lemma_no_hash(seq![' ']);
    lemma_no_comment_concat(l, seq![' ']);
    lemma_comment_cut_none(l);
    lemma_comment_cut_none(l + seq![' ']);
    assert(l.take(l.len() as int) =~= l);
    assert((l + seq![' ']).take((l + seq![' ']).len() as int) =~= l + seq![' ']);
    lemma_trim_space_end(l);
    lemma_trim_ends(l);
}

/// The phase token `p<N>` reads as phase `N`.
pub proof fn lemma_read_phase_p(n: nat)
    requires
        n <= usize::MAX,
    ensures
        read_phase(seq!['p'] + dec(n)) == Some(Some(n)),
        tag_ok(seq!['p'] + dec(n)),
{
    let t = seq!['p'] + dec(n);
    lemma_dec_digits(n);
    reveal_strlit("fill");
    assert(t[0] == 'p');
    assert(!eq_ic(t, "fill"@)) by {
        assert(lower(t[0]) != lower("fill"@[0]));
    }
    assert(is_digit(dec(n)[0]));
    assert(t[1] == dec(n)[0]);
    assert(eq_char_pred('p')(t[0]));
    assert(!eq_char_pred('p')(t[1]));
    lemma_run_len(t, eq_char_pred('p'), 0, 1);
    assert(t.skip(0) =~= t);
    assert(t.skip(1) =~= dec(n));
    lemma_parse_dec(n, usize::MAX as nat);
    assert forall|i: int| 0 <= i < t.len() implies !is_ws(#[trigger] t[i]) && t[i] != '.' && t[i]
        != ':' && t[i] != '#' by {
        if i > 0 {
            assert(t[i] == dec(n)[i - 1]);
            assert(is_digit(dec(n)[i - 1]));
        }
    }
}

/// The phase token `fill` reads as the fill bar.
pub proof fn lemma_read_phase_fill()
    ensures
        read_phase("fill"@) == Some(None::<nat>),
        tag_ok("fill"@),
{
    reveal_strlit("fill");
}

// ---- what a section reads back as ---------------------------------------------------------------

/// The phases read back from a drum lane's lines: each phase with a hit, in order, the others
/// silent, none after the last phase with a hit.
pub open spec fn drum_rebuilt(ph: Seq<Seq<bool>>) -> Seq<Seq<bool>>
    decreases ph.len(),
{
    if ph.len() == 0 {
        seq![]
    } else {
        let r = drum_rebuilt(ph.drop_last());
        if has_hit(ph.last()) {
            set_phase(r, (ph.len() - 1) as nat, ph.last(), silent_bar())
        } else {
            r
        }
    }
}

/// A drum lane as read back: its phases with hits, and its fill if the section has a fill bar and
/// the fill has a hit.
pub open spec fn lane_reloaded(l: LaneV, fill: bool) -> LaneV {
    LaneV {
        phases: drum_rebuilt(l.phases),
        fill: if fill && has_hit(l.fill) {
            l.fill
        } else {
            silent_bar()
        },
    }
}

/// The phrases read back from a note lane's lines: each phrase with a note, the others empty.
pub open spec fn notes_rebuilt(ph: Seq<Seq<Seq<Option<i32>>>>) -> Seq<Seq<Seq<Option<i32>>>>
    decreases ph.len(),
{
    if ph.len() == 0 {
        seq![]
    } else {
        let r = notes_rebuilt(ph.drop_last());
        if phrase_has_note(ph.last()) {
            set_phase(r, (ph.len() - 1) as nat, ph.last(), seq![])
        } else {
            r
        }
    }
}

/// A note lane as read back.
pub open spec fn notes_reloaded(l: NoteLaneV) -> NoteLaneV {
    NoteLaneV {
        phases: notes_rebuilt(l.phases),
        fill: if phrase_has_note(l.fill) {
            l.fill
        } else {
            seq![]
        },
    }
}

pub open spec fn empty_lane() -> LaneV {
    LaneV { phases: seq![], fill: silent_bar() }
}

pub open spec fn empty_notes() -> NoteLaneV {
    NoteLaneV { phases: seq![], fill: seq![] }
}

/// The phases a section line sets: the written ones, or the whole section as one phase.
pub open spec fn norm_phases(x: SectionV) -> Seq<u32> {
    if x.phases.len() == 0 {
        seq![x.bars]
    } else {
        x.phases
    }
}

/// Section `x` as the reader holds it once the parts of the text before part `k` are read
/// (part 0: the section lines, 1 chords, 2 knobs, 3 FX, 4 drums, 5 lead, 6 arp, 7 bass, 8 gain,
/// 9 sub, 10 mids).
pub open spec fn stage(x: SectionV, k: int) -> SectionV {
    SectionV {
        name: x.name,
        bars: x.bars,
        phases: norm_phases(x),
        fill: x.fill,
        gain: if k > 8 {
            x.gain
        } else {
            (lit_0_85(), lit_0_85())
        },
        sub: if k > 9 {
            x.sub
        } else {
            (lit_0_5(), lit_0_5())
        },
        mids: if k > 10 {
            x.mids
        } else {
            (lit_0_6(), lit_0_6())
        },
        kick: if k > 4 {
            lane_reloaded(x.kick, x.fill)
        } else {
            empty_lane()
        },
        snare: if k > 4 {
            lane_reloaded(x.snare, x.fill)
        } else {
            empty_lane()
        },
        hat: if k > 4 {
            lane_reloaded(x.hat, x.fill)
        } else {
            empty_lane()
        },
        stab: if k > 4 {
            lane_reloaded(x.stab, x.fill)
        } else {
            empty_lane()
        },
        lead: if k > 5 {
            notes_reloaded(x.lead)
        } else {
            empty_notes()
        },
        arp: if k > 6 {
            notes_reloaded(x.arp)
        } else {
            empty_notes()
        },
        bass: if k > 7 {
            notes_reloaded(x.bass)
        } else {
            empty_notes()
        },
        chords: if k > 1 {
            reread_chords(x.chords)
        } else {
            seq![]
        },
        params: if k > 2 {
            kept_knobs(x.params)
        } else {
            seq![]
        },
        fx: if k > 3 {
            kept_fx(x.fx)
        } else {
            None
        },
        start_bar: 0,
    }
}

// ---- sections the DSL writes faithfully ----------------------------------------------------------

pub open spec fn lane_ok(l: LaneV) -> bool {
    &&& l.phases.len() <= usize::MAX
    &&& forall|p: int| 0 <= p < l.phases.len() ==> (#[trigger] l.phases[p]).len() == 16
    &&& l.fill.len() == 16
}

pub open spec fn notes_ok(l: NoteLaneV) -> bool {
    &&& l.phases.len() <= usize::MAX
    &&& forall|p: int| 0 <= p < l.phases.len() ==> phrase_ok(#[trigger] l.phases[p])
    &&& phrase_ok(l.fill)
}

pub open spec fn ramp_ok(r: (Seq<char>, Seq<char>)) -> bool {
    is_float_lit(r.0) && is_float_lit(r.1)
}

/// Whether a drum lane writes a line: a phase with a hit, or a fill with a hit in a section with a
/// fill bar.
pub open spec fn lane_written(l: LaneV, fill: bool) -> bool {
    ||| exists|p: int| 0 <= p < l.phases.len() && has_hit(#[trigger] l.phases[p])
    ||| fill && has_hit(l.fill)
}

/// Whether a note lane writes a line: a phrase or fill with a note.
pub open spec fn notes_written(l: NoteLaneV) -> bool {
    ||| exists|p: int| 0 <= p < l.phases.len() && phrase_has_note(#[trigger] l.phases[p])
    ||| phrase_has_note(l.fill)
}

/// Whether a section's text has `<name>.<what>: ...` lines: chords, FX or lane lines.
pub open spec fn writes_colon(x: SectionV) -> bool {
    ||| x.chords.len() > 0
    ||| x.fx is Some
    ||| lane_written(x.kick, x.fill)
    ||| lane_written(x.snare, x.fill)
    ||| lane_written(x.hat, x.fill)
    ||| lane_written(x.stab, x.fill)
    ||| notes_written(x.lead)
    ||| notes_written(x.arp)
    ||| notes_written(x.bass)
}

/// A section whose text reads back: a name that is one word (without `.` when the section writes
/// a knob line `<name>.set ...`, and without `.` or `:` when it writes `<name>.<what>: ...`
/// lines), phases given when it has a fill bar, chord roots in octave 3, writable knobs and FX
/// words, 16-step grids, nameable pitches, literal dynamics.
pub open spec fn section_ok(x: SectionV) -> bool {
    &&& plain_word(x.name)
    &&& writes_colon(x) ==> name_ok(x.name)
    &&& x.params.len() > 0 ==> forall|i: int| 0 <= i < x.name.len() ==> #[trigger] x.name[i] != '.'
    &&& x.phases.len() > 0 || !x.fill
    &&& knobs_writable(x.params)
    &&& (x.fx matches Some(f) ==> all_cut(f))
    &&& lane_ok(x.kick)
    &&& lane_ok(x.snare)
    &&& lane_ok(x.hat)
    &&& lane_ok(x.stab)
    &&& notes_ok(x.lead)
    &&& notes_ok(x.arp)
    &&& notes_ok(x.bass)
    &&& ramp_ok(x.gain)
    &&& ramp_ok(x.sub)
    &&& ramp_ok(x.mids)
}

// ---- parts 1 to 3: chords, knobs, FX -------------------------------------------------------------

/// A section's chord line sets its chords.
#[verifier::rlimit(50)]
#[verifier::spinoff_prover]
pub proof fn lemma_chords_part(st: Draft, x: SectionV, si: int)
    requires
        section_ok(x),
        0 <= si < st.sections.len(),
        st.sections[si] == stage(x, 1),
        find_sec(st.sections, x.name) == Some(si),
    ensures
        reads_to(st, chords_line(x), with_section(st, si, stage(x, 2))),
        ends_nl(chords_line(x)),
{
    if x.chords.len() == 0 {
        assert(stage(x, 2) =~= stage(x, 1));
        assert(st.sections.update(si, stage(x, 2)) =~= st.sections);
        assert(with_section(st, si, stage(x, 2)) =~= st);
        lemma_reads_nothing(st);
    } else {
        let j = chords_joined(x.chords);
        let pat = seq![' '] + j;
        lemma_chord_words(x.chords);
        reveal_strlit(".chords: ");
        reveal_strlit("chords");
        reveal_strlit("set");
        reveal_strlit("\n");
        let l = colon_line(x.name, "chords"@, None, pat);
        assert(chords_line(x) =~= l + seq!['\n']);
        lemma_read_phase_p(0);
        assert(dec(0) == seq!['0']);
        assert(seq!['p'] + dec(0) =~= seq!['p', '0']);
        lemma_no_hash(seq![' ']);
        lemma_no_comment_concat(seq![' '], j);
        assert(spaced(seq![' ']));
        lemma_spaced_concat(seq![' '], j);
        assert(pat.last() == j.last());
        lemma_words_concat(seq![' '], j);
        lemma_words_blank(seq![' ']);
        assert(Seq::<Seq<char>>::empty() + words(j) =~= words(j));
        lemma_read_chord_toks(x.chords);
        assert forall|ln: nat| #[trigger] read_line(st, ln, l) == LineStep::Next(
            with_section(st, si, stage(x, 2)),
        ) by {
            lemma_colon_line(st, ln, x.name, "chords"@, None, pat, si, Some(0));
            assert(SectionV { chords: reread_chords(x.chords), ..st.sections[si] } =~= stage(x, 2));
        }
        lemma_reads_line(st, l, with_section(st, si, stage(x, 2)));
    }
}

/// A section's knob line sets its knobs.
#[verifier::rlimit(50)]
#[verifier::spinoff_prover]
pub proof fn lemma_set_part(st: Draft, x: SectionV, si: int)
    requires
        section_ok(x),
        0 <= si < st.sections.len(),
        st.sections[si] == stage(x, 2),
        find_sec(st.sections, x.name) == Some(si),
    ensures
        reads_to(st, set_line(x), with_section(st, si, stage(x, 3))),
        ends_nl(set_line(x)),
{
    if x.params.len() == 0 {
        assert(stage(x, 3) =~= stage(x, 2));
        assert(st.sections.update(si, stage(x, 3)) =~= st.sections);
        assert(with_section(st, si, stage(x, 3)) =~= st);
        lemma_reads_nothing(st);
    } else {
        let kp = kept_knobs(x.params);
        lemma_kept_knobs(x.params);
        let j = knobs_joined(kp);
        reveal_strlit(".set ");
        reveal_strlit("set");
        reveal_strlit("\n");
        let first = x.name + seq!['.'] + "set"@;
        let l = first + seq![' '] + j;
        lemma_knob_words(kp);
        // the line's words and text
        assert(no_ws(first)) by {
            assert forall|i: int| 0 <= i < first.len() implies !is_ws(#[trigger] first[i]) by {
                if i < x.name.len() {
                    assert(first[i] == x.name[i]);
                }
            }
        }
        assert(first[0] == x.name[0]);
        lemma_no_comment_word(first);
        lemma_words_single(first);
        lemma_words_gap(first, seq![' '], j);
        assert(is_ws(seq![' '][0]));
        lemma_no_hash(seq![' ']);
        lemma_no_comment_concat(first, seq![' ']);
        lemma_no_comment_concat(first + seq![' '], j);
        assert(spaced(first));
        assert(spaced(seq![' ']));
        lemma_spaced_concat(first, seq![' ']);
        lemma_spaced_concat(first + seq![' '], j);
        assert(words(l) =~= seq![first] + knob_toks(kp));
        assert(words(l)[0] == first);
        assert(first[x.name.len() as int] == '.');
        assert forall|i: int| 0 <= i < x.name.len() implies #[trigger] x.name[i] != '.' by {}
        lemma_split_once_at(x.name, '.', "set"@);
        assert(words(l).drop_first() =~= knob_toks(kp).skip(0));
        assert(kp.take(0) =~= Seq::<(Seq<char>, Seq<char>)>::empty());
        assert forall|ln: nat| #[trigger] read_line(st, ln, l) == LineStep::Next(
            with_section(st, si, stage(x, 3)),
        ) by {
            lemma_read_line_shape(st, ln, l);
            lemma_read_knobs_section(st, ln, si, x.name, kp, 0);
            assert(SectionV { params: kp, ..st.sections[si] } =~= stage(x, 3));
        }
        let full = first + seq![' '] + knobs_joined(x.params);
        assert(set_line(x) =~= full + seq!['\n']);
        assert forall|ln: nat| #[trigger] read_line(st, ln, full) == LineStep::Next(
            with_section(st, si, stage(x, 3)),
        ) by {
            lemma_knob_line_cut(st, ln, first, x.params);
        }
        lemma_knobs_spaced(x.params);
        lemma_spaced_concat(first + seq![' '], knobs_joined(x.params));
        lemma_reads_line(st, full, with_section(st, si, stage(x, 3)));
    }
}

/// A section's FX line sets its FX list.
#[verifier::rlimit(50)]
#[verifier::spinoff_prover]
pub proof fn lemma_fx_part(st: Draft, x: SectionV, si: int)
    requires
        section_ok(x),
        0 <= si < st.sections.len(),
        st.sections[si] == stage(x, 3),
        find_sec(st.sections, x.name) == Some(si),
    ensures
        reads_to(st, fx_line(x), with_section(st, si, stage(x, 4))),
        ends_nl(fx_line(x)),
{
    match x.fx {
        None => {
            assert(stage(x, 4) =~= stage(x, 3));
            assert(st.sections.update(si, stage(x, 4)) =~= st.sections);
            assert(with_section(st, si, stage(x, 4)) =~= st);
            lemma_reads_nothing(st);
        },
        Some(f) => {
            lemma_kept_fx(f);
            lemma_first_hashed_word(f, 0);
            let jj = first_hashed_word(f, 0);
            let kf = f.take(jj);
            let j = words_joined(kf);
            reveal_strlit(".fx: ");
            reveal_strlit("fx");
            reveal_strlit("set");
            reveal_strlit("chords");
            reveal_strlit("\n");
            lemma_joined(kf);
            lemma_read_phase_p(0);
            assert(dec(0) == seq!['0']);
            assert(seq!['p'] + dec(0) =~= seq!['p', '0']);
            let after = with_section(st, si, stage(x, 4));
            let l0 = colon_line(x.name, "fx"@, None, seq![]);
            lemma_colon_line(st, 0, x.name, "fx"@, None, seq![], si, Some(0));
            let plain = if kf.len() == 0 {
                l0 + seq![' ']
            } else {
                colon_line(x.name, "fx"@, None, seq![' '] + j)
            };
            if kf.len() == 0 {
                assert forall|ln: nat| #[trigger] read_line(st, ln, plain) == LineStep::Next(after) by {
                    lemma_colon_line(st, ln, x.name, "fx"@, None, seq![], si, Some(0));
                    assert(l0[0] == x.name[0]);
                    assert(l0.last() == ':');
                    lemma_read_line_space(st, ln, l0);
                    assert(words(Seq::<char>::empty()) =~= Seq::<Seq<char>>::empty());
                    assert(kf =~= Seq::<Seq<char>>::empty());
                    assert(SectionV { fx: Some(words(Seq::<char>::empty())), ..st.sections[si] } =~= stage(x, 4));
                }
            } else {
                let pat = seq![' '] + j;
                lemma_no_hash(seq![' ']);
                lemma_no_comment_concat(seq![' '], j);
                assert(spaced(seq![' ']));
                lemma_spaced_concat(seq![' '], j);
                assert(pat.last() == j.last());
                lemma_words_concat(seq![' '], j);
                lemma_words_blank(seq![' ']);
                assert(Seq::<Seq<char>>::empty() + words(j) =~= words(j));
                assert forall|ln: nat| #[trigger] read_line(st, ln, plain) == LineStep::Next(after) by {
                    lemma_colon_line(st, ln, x.name, "fx"@, None, pat, si, Some(0));
                    assert(SectionV { fx: Some(words(pat)), ..st.sections[si] } =~= stage(x, 4));
                }
                lemma_colon_line(st, 0, x.name, "fx"@, None, pat, si, Some(0));
            }
            let full = x.name + ".fx: "@ + words_joined(f);
            assert(fx_line(x) =~= full + seq!['\n']);
            assert(l0 =~= x.name + seq!['.'] + "fx"@ + seq![':']);
            assert(".fx: "@ =~= seq!['.'] + "fx"@ + seq![':'] + seq![' ']);
            if jj == f.len() {
                assert(kf =~= f);
                if f.len() == 0 {
                    assert(full =~= plain);
                } else {
                    assert(full =~= plain);
                }
            } else {
                assert(hashed(f[jj]));
                let rest = f.skip(jj);
                assert(rest[0] == f[jj]);
                lemma_joined_first(rest);
                let bb = seq![' '] + words_joined(rest);
                assert(bb[1] == '#');
                if jj == 0 {
                    assert(rest =~= f);
                    assert(full =~= l0 + bb);
                    assert forall|ln: nat| #[trigger] read_line(st, ln, full) == LineStep::Next(after) by {
                        lemma_read_line_cut(st, ln, l0, bb);
                    }
                } else {
                    lemma_joined_split(f, jj);
                    assert(full =~= plain + bb);
                    assert(plain.last() == j.last());
                    assert(plain[0] == x.name[0]);
                    assert forall|ln: nat| #[trigger] read_line(st, ln, full) == LineStep::Next(after) by {
                        lemma_read_line_cut(st, ln, plain, bb);
                        lemma_read_line_space(st, ln, plain);
                    }
                }
            }
            assert forall|k: int| 0 <= k < f.len() implies no_ws(#[trigger] f[k]) by {}
            lemma_joined_spaced(f);
            assert(spaced(l0 + seq![' ']));
            assert(full =~= (l0 + seq![' ']) + words_joined(f));
            lemma_spaced_concat(l0 + seq![' '], words_joined(f));
            lemma_reads_line(st, full, after);
        },
    }
}

// ---- part 4: drums -------------------------------------------------------------------------------

pub proof fn lemma_find_sec_from_update(secs: Seq<SectionV>, si: int, y: SectionV, n: Seq<char>, i: int)
    requires
        0 <= si < secs.len(),
        y.name == secs[si].name,
    ensures
        find_sec_from(secs.update(si, y), n, i) == find_sec_from(secs, n, i),
    decreases secs.len() - i,
{
    if 0 <= i < secs.len() {
        assert(secs.update(si, y)[i].name == secs[i].name);
        lemma_find_sec_from_update(secs, si, y, n, i + 1);
    }
}

/// Changing a section but not its name leaves every lookup as it was.
pub proof fn lemma_find_sec_update(st: Draft, si: int, y: SectionV, n: Seq<char>)
    requires
        0 <= si < st.sections.len(),
        y.name == st.sections[si].name,
    ensures
        find_sec(with_section(st, si, y).sections, n) == find_sec(st.sections, n),
{
    lemma_find_sec_from_update(st.sections, si, y, n, 0);
}

/// A section with the lane of `inst` replaced.
pub open spec fn put_lane(s: SectionV, inst: Inst, l: LaneV) -> SectionV {
    match inst {
        Inst::Kick => SectionV { kick: l, ..s },
        Inst::Snare => SectionV { snare: l, ..s },
        Inst::Hat => SectionV { hat: l, ..s },
        Inst::Stab => SectionV { stab: l, ..s },
    }
}

/// The DSL name of a drum lane.
pub open spec fn drum_name(iname: Seq<char>, inst: Inst) -> bool {
    ||| iname == "kick"@ && inst == Inst::Kick
    ||| iname == "snare"@ && inst == Inst::Snare
    ||| iname == "hat"@ && inst == Inst::Hat
    ||| iname == "stab"@ && inst == Inst::Stab
}

pub proof fn lemma_drum_name(iname: Seq<char>, inst: Inst)
    requires
        drum_name(iname, inst),
    ensures
        tag_ok(iname),
        iname != "set"@,
        iname != "chords"@,
        iname != "fx"@,
        iname != "lead"@,
        iname != "arp"@,
        iname != "bass"@,
        inst_named(iname) == Some(inst),
{
    reveal_strlit("kick");
    reveal_strlit("snare");
    reveal_strlit("hat");
    reveal_strlit("stab");
    reveal_strlit("set");
    reveal_strlit("chords");
    reveal_strlit("fx");
    reveal_strlit("lead");
    reveal_strlit("arp");
    reveal_strlit("bass");
    if iname == "kick"@ {
        assert(iname.len() == 4);
        assert(iname[0] == 'k');
    } else if iname == "snare"@ {
        assert(iname.len() == 5);
    } else if iname == "hat"@ {
        assert(iname.len() == 3);
        assert(iname[0] == 'h');
    } else {
        assert(iname.len() == 4);
        assert(iname[0] == 's');
        assert(iname[1] == 't');
    }
}

/// One drum grid line: the grid of phase `ph` (`None` = the fill) set in the lane.
#[verifier::rlimit(50)]
#[verifier::spinoff_prover]
pub proof fn lemma_drum_line(
    st: Draft,
    name: Seq<char>,
    iname: Seq<char>,
    inst: Inst,
    si: int,
    tok: Seq<char>,
    ph: Option<nat>,
    g: Seq<bool>,
)
    requires
        drum_name(iname, inst),
        name_ok(name),
        tag_ok(tok),
        read_phase(tok) == Some(ph),
        ph != Some(usize::MAX as nat),
        g.len() == 16,
        0 <= si < st.sections.len(),
        find_sec(st.sections, name) == Some(si),
    ensures
        reads_to(
            st,
            colon_line(name, iname, Some(tok), seq![' '] + spec_pat_str(g)) + seq!['\n'],
            with_section(
                st,
                si,
                put_lane(st.sections[si], inst, lane_set(lane_of(st.sections[si], inst), ph, g)),
            ),
        ),
{
    let pat = seq![' '] + spec_pat_str(g);
    let l = colon_line(name, iname, Some(tok), pat);
    let s = st.sections[si];
    let after = with_section(st, si, put_lane(s, inst, lane_set(lane_of(s, inst), ph, g)));
    lemma_drum_name(iname, inst);
    lemma_parse_grid(g);
    assert(pat.last() == spec_pat_str(g).last());
    assert forall|ln: nat| #[trigger] read_line(st, ln, l) == LineStep::Next(after) by {
        lemma_colon_line(st, ln, name, iname, Some(tok), pat, si, ph);
        assert(with_drum(s, inst, ph, g) == put_lane(s, inst, lane_set(lane_of(s, inst), ph, g)));
    }
    lemma_colon_line(st, 0, name, iname, Some(tok), pat, si, ph);
    lemma_reads_line(st, l, after);
}

/// A drum lane's phase lines set the phases that have hits.
#[verifier::rlimit(50)]
#[verifier::spinoff_prover]
pub proof fn lemma_drum_phase_lines(
    st: Draft,
    name: Seq<char>,
    iname: Seq<char>,
    inst: Inst,
    si: int,
    ph: Seq<Seq<bool>>,
)
    requires
        drum_name(iname, inst),
        plain_word(name),
        name_ok(name) || forall|p: int| 0 <= p < ph.len() ==> !has_hit(#[trigger] ph[p]),
        0 <= si < st.sections.len(),
        find_sec(st.sections, name) == Some(si),
        lane_of(st.sections[si], inst).phases == Seq::<Seq<bool>>::empty(),
        ph.len() <= usize::MAX,
        forall|p: int| 0 <= p < ph.len() ==> (#[trigger] ph[p]).len() == 16,
    ensures
        reads_to(
            st,
            drum_phase_lines(name, iname, ph),
            with_section(
                st,
                si,
                put_lane(
                    st.sections[si],
                    inst,
                    LaneV { phases: drum_rebuilt(ph), ..lane_of(st.sections[si], inst) },
                ),
            ),
        ),
        ends_nl(drum_phase_lines(name, iname, ph)),
    decreases ph.len(),
{
    let s = st.sections[si];
    let l0 = lane_of(s, inst);
    if ph.len() == 0 {
        assert(LaneV { phases: drum_rebuilt(ph), ..l0 } =~= l0);
        assert(put_lane(s, inst, l0) =~= s);
        assert(st.sections.update(si, s) =~= st.sections);
        assert(with_section(st, si, s) =~= st);
        lemma_reads_nothing(st);
    } else {
        let pre = ph.drop_last();
        let p = (ph.len() - 1) as nat;
        let last = ph.last();
        assert forall|q: int| 0 <= q < pre.len() implies (#[trigger] pre[q]).len() == 16 by {
            assert(pre[q] == ph[q]);
        }
        if !name_ok(name) {
            assert forall|q: int| 0 <= q < pre.len() implies !has_hit(#[trigger] pre[q]) by {
                assert(pre[q] == ph[q]);
            }
        }
        lemma_drum_phase_lines(st, name, iname, inst, si, pre);
        let r = drum_rebuilt(pre);
        let s1 = put_lane(s, inst, LaneV { phases: r, ..l0 });
        let st1 = with_section(st, si, s1);
        let text0 = drum_phase_lines(name, iname, pre);
        assert(s1.name == s.name);
        lemma_find_sec_update(st, si, s1, name);
        let fin = with_section(st, si, put_lane(s, inst, LaneV { phases: drum_rebuilt(ph), ..l0 }));
        if has_hit(last) {
            assert(name_ok(name)) by {
                assert(ph[ph.len() - 1] == last);
            }
            let tok = seq!['p'] + dec(p);
            lemma_read_phase_p(p);
            reveal_strlit(" p");
            reveal_strlit(": ");
            reveal_strlit("\n");
            reveal_strlit(".");
            let line = colon_line(name, iname, Some(tok), seq![' '] + spec_pat_str(last));
            assert(drum_phase_lines(name, iname, ph) =~= text0 + (line + seq!['\n']));
            assert(last.len() == 16);
            lemma_drum_line(st1, name, iname, inst, si, tok, Some(p), last);
            assert(st1.sections[si] == s1);
            assert(lane_of(s1, inst) == LaneV { phases: r, ..l0 });
            let s2 = put_lane(s1, inst, lane_set(LaneV { phases: r, ..l0 }, Some(p), last));
            assert(s2 =~= put_lane(s, inst, LaneV { phases: drum_rebuilt(ph), ..l0 }));
            assert(st1.sections.update(si, s2) =~= st.sections.update(si, s2));
            assert(with_section(st1, si, s2) =~= fin);
            lemma_reads_concat(st, text0, st1, line + seq!['\n'], fin);
            assert((line + seq!['\n']).last() == '\n');
            lemma_ends_nl_concat(text0, line + seq!['\n']);
        } else {
            assert(drum_phase_lines(name, iname, ph) =~= text0);
            assert(drum_rebuilt(ph) == r);
        }
    }
}

pub proof fn lemma_lane_written_colon(x: SectionV, inst: Inst)
    ensures
        lane_written(lane_of(x, inst), x.fill) ==> writes_colon(x),
{
    match inst {
        Inst::Kick => {},
        Inst::Snare => {},
        Inst::Hat => {},
        Inst::Stab => {},
    }
}

pub proof fn lemma_notes_written_colon(x: SectionV, v: Voice)
    ensures
        notes_written(voice_lane(x, v)) ==> writes_colon(x),
{
    match v {
        Voice::Lead => {},
        Voice::Arp => {},
        Voice::Bass => {},
    }
}

/// A drum lane's lines set it to the lane as read back.
#[verifier::rlimit(50)]
#[verifier::spinoff_prover]
pub proof fn lemma_drum_lines(st: Draft, x: SectionV, iname: Seq<char>, inst: Inst, si: int)
    requires
        drum_name(iname, inst),
        section_ok(x),
        0 <= si < st.sections.len(),
        find_sec(st.sections, x.name) == Some(si),
        lane_of(st.sections[si], inst) == empty_lane(),
    ensures
        reads_to(
            st,
            drum_lines(x, iname, lane_of(x, inst)),
            with_section(st, si, put_lane(st.sections[si], inst, lane_reloaded(lane_of(x, inst), x.fill))),
        ),
        ends_nl(drum_lines(x, iname, lane_of(x, inst))),
{
    let l = lane_of(x, inst);
    let s = st.sections[si];
    assert(lane_ok(l));
    lemma_lane_written_colon(x, inst);
    if !name_ok(x.name) {
        assert(!lane_written(l, x.fill));
        assert forall|p: int| 0 <= p < l.phases.len() implies !has_hit(#[trigger] l.phases[p]) by {}
    }
    lemma_drum_phase_lines(st, x.name, iname, inst, si, l.phases);
    let s1 = put_lane(s, inst, LaneV { phases: drum_rebuilt(l.phases), ..empty_lane() });
    let st1 = with_section(st, si, s1);
    let text0 = drum_phase_lines(x.name, iname, l.phases);
    let fin = with_section(st, si, put_lane(s, inst, lane_reloaded(l, x.fill)));
    assert(s1.name == s.name);
    lemma_find_sec_update(st, si, s1, x.name);
    if x.fill && has_hit(l.fill) {
        reveal_strlit(" fill: ");
        reveal_strlit("\n");
        reveal_strlit(".");
        reveal_strlit("fill");
        lemma_read_phase_fill();
        let line = colon_line(x.name, iname, Some("fill"@), seq![' '] + spec_pat_str(l.fill));
        assert(drum_lines(x, iname, l) =~= text0 + (line + seq!['\n']));
        lemma_drum_line(st1, x.name, iname, inst, si, "fill"@, None, l.fill);
        let s2 = put_lane(s1, inst, lane_set(lane_of(s1, inst), None, l.fill));
        assert(lane_of(s1, inst) == LaneV { phases: drum_rebuilt(l.phases), ..empty_lane() });
        assert(s2 =~= put_lane(s, inst, lane_reloaded(l, x.fill)));
        assert(st1.sections.update(si, s2) =~= st.sections.update(si, s2));
        assert(with_section(st1, si, s2) =~= fin);
        lemma_reads_concat(st, text0, st1, line + seq!['\n'], fin);
        assert((line + seq!['\n']).last() == '\n');
        lemma_ends_nl_concat(text0, line + seq!['\n']);
    } else {
        assert(drum_lines(x, iname, l) =~= text0);
        assert(s1 =~= put_lane(s, inst, lane_reloaded(l, x.fill)));
    }
}

/// A section's drum lines set its four drum lanes.
#[verifier::rlimit(50)]
#[verifier::spinoff_prover]
pub proof fn lemma_drums_part(st: Draft, x: SectionV, si: int)
    requires
        section_ok(x),
        0 <= si < st.sections.len(),
        st.sections[si] == stage(x, 4),
        find_sec(st.sections, x.name) == Some(si),
    ensures
        reads_to(st, section_drum_lines(x), with_section(st, si, stage(x, 5))),
        ends_nl(section_drum_lines(x)),
{
    reveal_strlit("kick");
    reveal_strlit("snare");
    reveal_strlit("hat");
    reveal_strlit("stab");
    let s0 = stage(x, 4);
    let s1 = put_lane(s0, Inst::Kick, lane_reloaded(x.kick, x.fill));
    let s2 = put_lane(s1, Inst::Snare, lane_reloaded(x.snare, x.fill));
    let s3 = put_lane(s2, Inst::Hat, lane_reloaded(x.hat, x.fill));
    let s4 = put_lane(s3, Inst::Stab, lane_reloaded(x.stab, x.fill));
    let st1 = with_section(st, si, s1);
    let st2 = with_section(st1, si, s2);
    let st3 = with_section(st2, si, s3);
    let st4 = with_section(st3, si, s4);
    let t1 = drum_lines(x, "kick"@, x.kick);
    let t2 = drum_lines(x, "snare"@, x.snare);
    let t3 = drum_lines(x, "hat"@, x.hat);
    let t4 = drum_lines(x, "stab"@, x.stab);
    lemma_drum_lines(st, x, "kick"@, Inst::Kick, si);
    lemma_find_sec_update(st, si, s1, x.name);
    lemma_drum_lines(st1, x, "snare"@, Inst::Snare, si);
    lemma_find_sec_update(st1, si, s2, x.name);
    lemma_drum_lines(st2, x, "hat"@, Inst::Hat, si);
    lemma_find_sec_update(st2, si, s3, x.name);
    lemma_drum_lines(st3, x, "stab"@, Inst::Stab, si);
    lemma_reads_concat(st, t1, st1, t2, st2);
    lemma_ends_nl_concat(t1, t2);
    lemma_reads_concat(st, t1 + t2, st2, t3, st3);
    lemma_ends_nl_concat(t1 + t2, t3);
    lemma_reads_concat(st, t1 + t2 + t3, st3, t4, st4);
    lemma_ends_nl_concat(t1 + t2 + t3, t4);
    assert(s4 =~= stage(x, 5));
    assert(st4.sections =~= st.sections.update(si, s4));
    assert(st4 =~= with_section(st, si, stage(x, 5)));
}

// ---- parts 5 to 7: melodic lines ----------------------------------------------------------------

/// A section with the note lane of voice `v` replaced.
pub open spec fn put_voice(s: SectionV, v: Voice, l: NoteLaneV) -> SectionV {
    match v {
        Voice::Lead => SectionV { lead: l, ..s },
        Voice::Arp => SectionV { arp: l, ..s },
        Voice::Bass => SectionV { bass: l, ..s },
    }
}

/// The DSL name of a note lane.
pub open spec fn voice_name(lname: Seq<char>, v: Voice) -> bool {
    ||| lname == "lead"@ && v == Voice::Lead
    ||| lname == "arp"@ && v == Voice::Arp
    ||| lname == "bass"@ && v == Voice::Bass
}

pub proof fn lemma_voice_name(lname: Seq<char>, v: Voice)
    requires
        voice_name(lname, v),
    ensures
        tag_ok(lname),
        lname != "set"@,
        lname != "chords"@,
        lname != "fx"@,
        lname == "lead"@ || lname == "arp"@ || lname == "bass"@,
        forall|s: SectionV, ph: Option<nat>, g: Seq<Seq<Option<i32>>>| #[trigger] with_notes(s, lname, ph, g)
            == put_voice(s, v, note_lane_set(voice_lane(s, v), ph, g)),
{
    reveal_strlit("lead");
    reveal_strlit("arp");
    reveal_strlit("bass");
    reveal_strlit("set");
    reveal_strlit("chords");
    reveal_strlit("fx");
    if lname == "lead"@ {
        assert(lname.len() == 4);
        assert(lname[0] == 'l');
    } else if lname == "arp"@ {
        assert(lname.len() == 3);
        assert(lname[0] == 'a');
    } else {
        assert(lname.len() == 4);
        assert(lname[0] == 'b');
    }
}

/// One phrase line: phrase `ph` (`None` = the fill) set in the note lane.
#[verifier::rlimit(50)]
#[verifier::spinoff_prover]
pub proof fn lemma_note_line(
    st: Draft,
    name: Seq<char>,
    lname: Seq<char>,
    v: Voice,
    si: int,
    tok: Seq<char>,
    ph: Option<nat>,
    g: Seq<Seq<Option<i32>>>,
)
    requires
        voice_name(lname, v),
        name_ok(name),
        tag_ok(tok),
        read_phase(tok) == Some(ph),
        ph != Some(usize::MAX as nat),
        g.len() > 0,
        phrase_ok(g),
        0 <= si < st.sections.len(),
        find_sec(st.sections, name) == Some(si),
    ensures
        reads_to(
            st,
            colon_line(name, lname, Some(tok), seq![' '] + spec_notes_phrase(g)) + seq!['\n'],
            with_section(
                st,
                si,
                put_voice(st.sections[si], v, note_lane_set(voice_lane(st.sections[si], v), ph, g)),
            ),
        ),
{
    let pat = seq![' '] + spec_notes_phrase(g);
    let l = colon_line(name, lname, Some(tok), pat);
    let s = st.sections[si];
    let after = with_section(st, si, put_voice(s, v, note_lane_set(voice_lane(s, v), ph, g)));
    lemma_voice_name(lname, v);
    lemma_parse_phrase(g);
    assert(pat.last() == spec_notes_phrase(g).last());
    assert forall|ln: nat| #[trigger] read_line(st, ln, l) == LineStep::Next(after) by {
        lemma_colon_line(st, ln, name, lname, Some(tok), pat, si, ph);
        assert(with_notes(s, lname, ph, g) == put_voice(s, v, note_lane_set(voice_lane(s, v), ph, g)));
    }
    lemma_colon_line(st, 0, name, lname, Some(tok), pat, si, ph);
    lemma_reads_line(st, l, after);
}

#[verifier::rlimit(50)]
#[verifier::spinoff_prover]
pub proof fn lemma_note_phase_lines(
    st: Draft,
    name: Seq<char>,
    lname: Seq<char>,
    v: Voice,
    si: int,
    ph: Seq<Seq<Seq<Option<i32>>>>,
)
    requires
        voice_name(lname, v),
        plain_word(name),
        name_ok(name) || forall|p: int| 0 <= p < ph.len() ==> !phrase_has_note(#[trigger] ph[p]),
        0 <= si < st.sections.len(),
        find_sec(st.sections, name) == Some(si),
        voice_lane(st.sections[si], v).phases == Seq::<Seq<Seq<Option<i32>>>>::empty(),
        ph.len() <= usize::MAX,
        forall|p: int| 0 <= p < ph.len() ==> phrase_ok(#[trigger] ph[p]),
    ensures
        reads_to(
            st,
            note_phase_lines(name, lname, ph),
            with_section(
                st,
                si,
                put_voice(
                    st.sections[si],
                    v,
                    NoteLaneV { phases: notes_rebuilt(ph), ..voice_lane(st.sections[si], v) },
                ),
            ),
        ),
        ends_nl(note_phase_lines(name, lname, ph)),
    decreases ph.len(),
{
    let s = st.sections[si];
    let l0 = voice_lane(s, v);
    if ph.len() == 0 {
        assert(NoteLaneV { phases: notes_rebuilt(ph), ..l0 } =~= l0);
        assert(put_voice(s, v, l0) =~= s);
        assert(st.sections.update(si, s) =~= st.sections);
        assert(with_section(st, si, s) =~= st);
        lemma_reads_nothing(st);
    } else {
        let pre = ph.drop_last();
        let p = (ph.len() - 1) as nat;
        let last = ph.last();
        assert forall|q: int| 0 <= q < pre.len() implies phrase_ok(#[trigger] pre[q]) by {
            assert(pre[q] == ph[q]);
        }
        if !name_ok(name) {
            assert forall|q: int| 0 <= q < pre.len() implies !phrase_has_note(#[trigger] pre[q]) by {
                assert(pre[q] == ph[q]);
            }
        }
        lemma_note_phase_lines(st, name, lname, v, si, pre);
        let r = notes_rebuilt(pre);
        let s1 = put_voice(s, v, NoteLaneV { phases: r, ..l0 });
        let st1 = with_section(st, si, s1);
        let text0 = note_phase_lines(name, lname, pre);
        assert(s1.name == s.name);
        lemma_find_sec_update(st, si, s1, name);
        let fin = with_section(st, si, put_voice(s, v, NoteLaneV { phases: notes_rebuilt(ph), ..l0 }));
        if phrase_has_note(last) {
            assert(name_ok(name)) by {
                assert(ph[ph.len() - 1] == last);
            }
            let tok = seq!['p'] + dec(p);
            lemma_read_phase_p(p);
            reveal_strlit(" p");
            reveal_strlit(": ");
            reveal_strlit("\n");
            reveal_strlit(".");
            let line = colon_line(name, lname, Some(tok), seq![' '] + spec_notes_phrase(last));
            assert(note_phase_lines(name, lname, ph) =~= text0 + (line + seq!['\n']));
            assert(phrase_ok(ph[ph.len() - 1]));
            assert(last.len() > 0);
            lemma_note_line(st1, name, lname, v, si, tok, Some(p), last);
            assert(st1.sections[si] == s1);
            assert(voice_lane(s1, v) == NoteLaneV { phases: r, ..l0 });
            let s2 = put_voice(s1, v, note_lane_set(NoteLaneV { phases: r, ..l0 }, Some(p), last));
            assert(s2 =~= put_voice(s, v, NoteLaneV { phases: notes_rebuilt(ph), ..l0 }));
            assert(st1.sections.update(si, s2) =~= st.sections.update(si, s2));
            assert(with_section(st1, si, s2) =~= fin);
            lemma_reads_concat(st, text0, st1, line + seq!['\n'], fin);
            assert((line + seq!['\n']).last() == '\n');
            lemma_ends_nl_concat(text0, line + seq!['\n']);
        } else {
            assert(note_phase_lines(name, lname, ph) =~= text0);
            assert(notes_rebuilt(ph) == r);
        }
    }
}

#[verifier::rlimit(50)]
#[verifier::spinoff_prover]
pub proof fn lemma_note_lines(st: Draft, x: SectionV, lname: Seq<char>, v: Voice, si: int)
    requires
        voice_name(lname, v),
        section_ok(x),
        0 <= si < st.sections.len(),
        find_sec(st.sections, x.name) == Some(si),
        voice_lane(st.sections[si], v) == empty_notes(),
    ensures
        reads_to(
            st,
            note_lines(x, lname, voice_lane(x, v)),
            with_section(st, si, put_voice(st.sections[si], v, notes_reloaded(voice_lane(x, v)))),
        ),
        ends_nl(note_lines(x, lname, voice_lane(x, v))),
{
    let l = voice_lane(x, v);
    let s = st.sections[si];
    assert(notes_ok(l));
    lemma_notes_written_colon(x, v);
    if !name_ok(x.name) {
        assert(!notes_written(l));
        assert forall|p: int| 0 <= p < l.phases.len() implies !phrase_has_note(#[trigger] l.phases[p]) by {}
    }
    lemma_note_phase_lines(st, x.name, lname, v, si, l.phases);
    let s1 = put_voice(s, v, NoteLaneV { phases: notes_rebuilt(l.phases), ..empty_notes() });
    let st1 = with_section(st, si, s1);
    let text0 = note_phase_lines(x.name, lname, l.phases);
    let fin = with_section(st, si, put_voice(s, v, notes_reloaded(l)));
    assert(s1.name == s.name);
    lemma_find_sec_update(st, si, s1, x.name);
    if phrase_has_note(l.fill) {
        reveal_strlit(" fill: ");
        reveal_strlit("\n");
        reveal_strlit(".");
        reveal_strlit("fill");
        lemma_read_phase_fill();
        let line = colon_line(x.name, lname, Some("fill"@), seq![' '] + spec_notes_phrase(l.fill));
        assert(note_lines(x, lname, l) =~= text0 + (line + seq!['\n']));
        lemma_note_line(st1, x.name, lname, v, si, "fill"@, None, l.fill);
        let s2 = put_voice(s1, v, note_lane_set(voice_lane(s1, v), None, l.fill));
        assert(voice_lane(s1, v) == NoteLaneV { phases: notes_rebuilt(l.phases), ..empty_notes() });
        assert(s2 =~= put_voice(s, v, notes_reloaded(l)));
        assert(st1.sections.update(si, s2) =~= st.sections.update(si, s2));
        assert(with_section(st1, si, s2) =~= fin);
        lemma_reads_concat(st, text0, st1, line + seq!['\n'], fin);
        assert((line + seq!['\n']).last() == '\n');
        lemma_ends_nl_concat(text0, line + seq!['\n']);
    } else {
        assert(note_lines(x, lname, l) =~= text0);
        assert(s1 =~= put_voice(s, v, notes_reloaded(l)));
    }
}

// ---- the per-section parts -------------------------------------------------------------------------

/// Part `k` (1 to 7) of a section's text moves it from stage `k` to stage `k + 1`.
pub proof fn lemma_part(st: Draft, x: SectionV, si: int, k: int)
    requires
        1 <= k <= 7,
        section_ok(x),
        0 <= si < st.sections.len(),
        st.sections[si] == stage(x, k),
        find_sec(st.sections, x.name) == Some(si),
    ensures
        reads_to(st, section_part(x, k), with_section(st, si, stage(x, k + 1))),
        ends_nl(section_part(x, k)),
{
    let s = st.sections[si];
    if k == 1 {
        lemma_chords_part(st, x, si);
    } else if k == 2 {
        lemma_set_part(st, x, si);
    } else if k == 3 {
        lemma_fx_part(st, x, si);
    } else if k == 4 {
        lemma_drums_part(st, x, si);
    } else if k == 5 {
        reveal_strlit("lead");
        lemma_note_lines(st, x, "lead"@, Voice::Lead, si);
        assert(put_voice(s, Voice::Lead, notes_reloaded(x.lead)) =~= stage(x, 6));
    } else if k == 6 {
        reveal_strlit("arp");
        lemma_note_lines(st, x, "arp"@, Voice::Arp, si);
        assert(put_voice(s, Voice::Arp, notes_reloaded(x.arp)) =~= stage(x, 7));
    } else {
        reveal_strlit("bass");
        lemma_note_lines(st, x, "bass"@, Voice::Bass, si);
        assert(put_voice(s, Voice::Bass, notes_reloaded(x.bass)) =~= stage(x, 8));
    }
}

/// The sections with the first `n` at stage `k + 1` and the others at stage `k`.
pub open spec fn staged(secs: Seq<SectionV>, n: int, k: int) -> Seq<SectionV> {
    Seq::new(secs.len(), |i: int| if i < n {
        stage(secs[i], k + 1)
    } else {
        stage(secs[i], k)
    })
}

pub open spec fn secs_ok(secs: Seq<SectionV>) -> bool {
    &&& forall|i: int| 0 <= i < secs.len() ==> section_ok(#[trigger] secs[i])
    &&& names_distinct(secs)
}

pub proof fn lemma_staged_names(secs: Seq<SectionV>, n: int, k: int)
    requires
        names_distinct(secs),
    ensures
        names_distinct(staged(secs, n, k)),
        forall|i: int| 0 <= i < secs.len() ==> (#[trigger] staged(secs, n, k)[i]).name == secs[i].name,
{
    let t = staged(secs, n, k);
    assert forall|i: int, j: int| 0 <= i < j < t.len() implies (#[trigger] t[i]).name != (
    #[trigger] t[j]).name by {
        assert(t[i].name == secs[i].name);
        assert(t[j].name == secs[j].name);
    }
}

/// Part `k` (1 to 7) of the first `n` sections moves them to stage `k + 1`.
#[verifier::rlimit(50)]
#[verifier::spinoff_prover]
pub proof fn lemma_per_section(st: Draft, secs: Seq<SectionV>, n: int, k: int)
    requires
        secs_ok(secs),
        1 <= k <= 7,
        0 <= n <= secs.len(),
        st.sections == staged(secs, 0, k),
    ensures
        reads_to(st, per_section(secs, n, k), Draft { sections: staged(secs, n, k), ..st }),
        ends_nl(per_section(secs, n, k)),
    decreases n,
{
    if n == 0 {
        assert(staged(secs, 0, k) =~= st.sections);
        assert(Draft { sections: staged(secs, 0, k), ..st } =~= st);
        lemma_reads_nothing(st);
    } else {
        lemma_per_section(st, secs, n - 1, k);
        let st1 = Draft { sections: staged(secs, n - 1, k), ..st };
        let x = secs[n - 1];
        assert(section_ok(x));
        lemma_staged_names(secs, n - 1, k);
        lemma_find_sec(st1.sections, n - 1);
        assert(st1.sections[n - 1] == stage(x, k));
        lemma_part(st1, x, n - 1, k);
        let fin = Draft { sections: staged(secs, n, k), ..st };
        assert(st1.sections.update(n - 1, stage(x, k + 1)) =~= staged(secs, n, k));
        assert(with_section(st1, n - 1, stage(x, k + 1)) =~= fin);
        lemma_reads_concat(st, per_section(secs, n - 1, k), st1, section_part(x, k), fin);
        lemma_ends_nl_concat(per_section(secs, n - 1, k), section_part(x, k));
    }
}

/// Words with spaces between them.
pub proof fn lemma_words3(a: Seq<char>, b: Seq<char>)
    ensures
        words(a + seq![' '] + b) == words(a) + words(b),
{
    assert(is_ws(seq![' '][0]));
    lemma_words_gap(a, seq![' '], b);
}

/// A section line adds the section as the reader first holds it.
#[verifier::rlimit(50)]
#[verifier::spinoff_prover]
pub proof fn lemma_section_line(st: Draft, x: SectionV)
    requires
        section_ok(x),
    ensures
        reads_to(st, section_line(x), Draft { sections: st.sections.push(stage(x, 1)), ..st }),
        ends_nl(section_line(x)),
{
    reveal_strlit("section ");
    reveal_strlit("section");
    reveal_strlit(" ");
    reveal_strlit(" fill");
    reveal_strlit("fill");
    reveal_strlit("");
    reveal_strlit("\n");
    reveal_strlit("bpm");
    let kw = "section"@;
    let sp = seq![' '];
    let d = dec(x.bars as nat);
    let c = csv(x.phases);
    let opt: Seq<char> = if x.fill {
        seq![' '] + "fill"@
    } else {
        seq![]
    };
    let l = kw + sp + x.name + sp + d + sp + c + opt;
    assert(section_line(x) =~= l + seq!['\n']);
    lemma_dec_digits(x.bars as nat);
    lemma_parse_dec(x.bars as nat, u32::MAX as nat);
    assert(no_ws(d)) by {
        assert forall|i: int| 0 <= i < d.len() implies !is_ws(#[trigger] d[i]) by {
            assert(is_digit(d[i]));
        }
    }
    assert(d[0] != '#') by {
        assert(is_digit(d[0]));
    }
    // words of the option tail
    let tail = c + opt;
    if x.phases.len() > 0 {
        lemma_csv(x.phases);
        assert(no_ws(c)) by {
            assert forall|i: int| 0 <= i < c.len() implies !is_ws(#[trigger] c[i]) by {
                assert(is_digit(c[i]) || c[i] == ',');
            }
        }
        lemma_words_single(c);
        lemma_no_comment_word(c);
        lemma_filter_dec(x.phases);
        assert(!eq_ic(c, "fill"@)) by {
            assert(is_digit(c[0]));
            if c.len() == 4 {
                assert(lower(c[0]) != lower("fill"@[0]));
            }
        }
        if x.fill {
            lemma_words3(c, "fill"@);
            lemma_words_single("fill"@);
            assert(tail =~= c + sp + "fill"@);
            assert(words(tail) =~= seq![c, "fill"@]);
        } else {
            assert(tail =~= c);
        }
    } else {
        assert(!x.fill);
        assert(c == Seq::<char>::empty());
        assert(tail =~= Seq::<char>::empty());
        assert(words(tail) =~= Seq::<Seq<char>>::empty());
    }
    // words of the whole line
    lemma_words_single(kw);
    lemma_words_single(x.name);
    lemma_words_single(d);
    assert(l =~= kw + sp + (x.name + sp + (d + sp + tail)));
    lemma_words3(kw, x.name + sp + (d + sp + tail));
    lemma_words3(x.name, d + sp + tail);
    lemma_words3(d, tail);
    let ws = words(l);
    assert(ws =~= seq![kw, x.name, d] + words(tail));
    // no comment, spaced
    lemma_no_hash(kw);
    lemma_no_hash(sp);
    lemma_no_comment_word(x.name);
    lemma_no_comment_word(d);
    assert(no_comment(tail)) by {
        if x.phases.len() > 0 {
            lemma_no_hash(opt);
            lemma_no_comment_concat(c, opt);
        }
    }
    assert(spaced(tail)) by {
        if x.phases.len() > 0 {
            assert(spaced(c));
            assert(spaced(opt));
            lemma_spaced_concat(c, opt);
        }
    }
    lemma_no_comment_concat(kw, sp);
    lemma_no_comment_concat(kw + sp, x.name);
    lemma_no_comment_concat(kw + sp + x.name, sp);
    lemma_no_comment_concat(kw + sp + x.name + sp, d);
    lemma_no_comment_concat(kw + sp + x.name + sp + d, sp);
    lemma_no_comment_concat(kw + sp + x.name + sp + d + sp, tail);
    assert(spaced(kw));
    assert(spaced(sp));
    assert(spaced(x.name));
    assert(spaced(d));
    lemma_spaced_concat(kw, sp);
    lemma_spaced_concat(kw + sp, x.name);
    lemma_spaced_concat(kw + sp + x.name, sp);
    lemma_spaced_concat(kw + sp + x.name + sp, d);
    lemma_spaced_concat(kw + sp + x.name + sp + d, sp);
    lemma_spaced_concat(kw + sp + x.name + sp + d + sp, tail);
    assert(kw + sp + x.name + sp + d + sp + tail =~= l);
    // the reading
    let rest = ws.drop_first();
    assert(rest.skip(2) =~= words(tail));
    assert(section_opts(rest.skip(2), seq![x.bars], false) == (norm_phases(x), x.fill)) by {
        let t = words(tail);
        reveal_with_fuel(section_opts, 3);
        if x.phases.len() > 0 {
            assert(t[0] == c);
            assert(filter_u32(split_pieces(t[0], ',')) == x.phases);
            assert(t.drop_first().len() == 0 ==> section_opts(t.drop_first(), x.phases, false) == (
            x.phases, false));
            if x.fill {
                assert(t.drop_first() =~= seq!["fill"@]);
                assert(eq_ic("fill"@, "fill"@));
                assert(t.drop_first().drop_first() =~= Seq::<Seq<char>>::empty());
            } else {
                assert(t.drop_first() =~= Seq::<Seq<char>>::empty());
            }
        }
    }
    assert(!kw.contains('.'));
    let after = Draft { sections: st.sections.push(stage(x, 1)), ..st };
    assert(fresh_section(x.name, x.bars, norm_phases(x), x.fill) =~= stage(x, 1));
    assert forall|ln: nat| #[trigger] read_line(st, ln, l) == LineStep::Next(after) by {
        lemma_read_line_shape(st, ln, l);
        assert(kw != "bpm"@);
    }
    lemma_reads_line(st, l, after);
}

/// The section lines of the first `n` sections add them.
#[verifier::rlimit(50)]
#[verifier::spinoff_prover]
pub proof fn lemma_section_lines(st: Draft, secs: Seq<SectionV>, n: int)
    requires
        secs_ok(secs),
        0 <= n <= secs.len(),
        st.sections == Seq::<SectionV>::empty(),
    ensures
        reads_to(
            st,
            per_section(secs, n, 0),
            Draft { sections: Seq::new(n as nat, |i: int| stage(secs[i], 1)), ..st },
        ),
        ends_nl(per_section(secs, n, 0)),
    decreases n,
{
    if n == 0 {
        assert(Seq::new(0, |i: int| stage(secs[i], 1)) =~= st.sections);
        assert(Draft { sections: Seq::new(0, |i: int| stage(secs[i], 1)), ..st } =~= st);
        lemma_reads_nothing(st);
    } else {
        lemma_section_lines(st, secs, n - 1);
        let st1 = Draft { sections: Seq::new((n - 1) as nat, |i: int| stage(secs[i], 1)), ..st };
        let x = secs[n - 1];
        assert(section_ok(x));
        lemma_section_line(st1, x);
        let fin = Draft { sections: Seq::new(n as nat, |i: int| stage(secs[i], 1)), ..st };
        assert(st1.sections.push(stage(x, 1)) =~= fin.sections);
        assert(Draft { sections: st1.sections.push(stage(x, 1)), ..st1 } =~= fin);
        assert(section_part(x, 0) == section_line(x));
        lemma_reads_concat(st, per_section(secs, n - 1, 0), st1, section_part(x, 0), fin);
        lemma_ends_nl_concat(per_section(secs, n - 1, 0), section_part(x, 0));
    }
}

// ---- parts 8 to 10: dynamics -----------------------------------------------------------------------

pub open spec fn ramp_of(x: SectionV, part: int) -> (Seq<char>, Seq<char>) {
    if part == 8 {
        x.gain
    } else if part == 9 {
        x.sub
    } else {
        x.mids
    }
}

pub open spec fn dyn_kw(part: int) -> Seq<char> {
    if part == 8 {
        "gain"@
    } else if part == 9 {
        "sub"@
    } else {
        "mids"@
    }
}

/// The words after the keyword of a dynamics line: name, value, name, value, …
pub open spec fn dyn_toks(secs: Seq<SectionV>, n: int, part: int) -> Seq<Seq<char>>
    decreases n,
{
    if n <= 0 {
        seq![]
    } else {
        dyn_toks(secs, n - 1, part) + seq![secs[n - 1].name, ramp_text(ramp_of(secs[n - 1], part))]
    }
}

/// A dynamics value's text is one word and reads back as the value.
pub proof fn lemma_ramp_text(r: (Seq<char>, Seq<char>))
    requires
        ramp_ok(r),
    ensures
        plain_word(ramp_text(r)),
        spec_parse_ramp(ramp_text(r)) == Some(r),
{
    lemma_float_word(r.0);
    lemma_float_word(r.1);
    let t = ramp_text(r);
    if r.0 == r.1 {
        assert forall|i: int| 0 <= i < r.0.len() implies #[trigger] r.0[i] != '>' by {}
        lemma_split_once_none(r.0, '>');
    } else {
        assert forall|i: int| 0 <= i < r.0.len() implies #[trigger] r.0[i] != '>' by {}
        lemma_split_once_at(r.0, '>', r.1);
        assert forall|i: int| 0 <= i < t.len() implies !is_ws(#[trigger] t[i]) by {
            if i < r.0.len() {
                assert(t[i] == r.0[i]);
            } else if i > r.0.len() {
                assert(t[i] == r.1[i - r.0.len() - 1]);
            }
        }
        assert(t[0] == r.0[0]);
    }
}

#[verifier::rlimit(50)]
#[verifier::spinoff_prover]
pub proof fn lemma_dyn_words(secs: Seq<SectionV>, n: int, part: int)
    requires
        8 <= part <= 10,
        secs_ok(secs),
        0 <= n <= secs.len(),
    ensures
        words(per_section(secs, n, part)) == dyn_toks(secs, n, part),
        no_comment(per_section(secs, n, part)),
        spaced(per_section(secs, n, part)),
        n > 0 ==> per_section(secs, n, part).len() > 0 && per_section(secs, n, part)[0] == ' '
            && !is_ws(per_section(secs, n, part).last()),
        n == 0 ==> per_section(secs, n, part).len() == 0,
    decreases n,
{
    if n > 0 {
        lemma_dyn_words(secs, n - 1, part);
        let x = secs[n - 1];
        assert(section_ok(x));
        let r = ramp_of(x, part);
        assert(ramp_ok(r));
        lemma_ramp_text(r);
        let rt = ramp_text(r);
        reveal_strlit(" ");
        let sp = seq![' '];
        let piece = sp + x.name + sp + rt;
        assert(section_part(x, part) =~= piece);
        let pre = per_section(secs, n - 1, part);
        assert(per_section(secs, n, part) == pre + piece);
        lemma_words_single(x.name);
        lemma_words_single(rt);
        lemma_words3(x.name, rt);
        assert(is_ws(sp[0]));
        lemma_words_concat(sp, x.name + sp + rt);
        lemma_words_blank(sp);
        assert(piece =~= sp + (x.name + sp + rt));
        assert(words(piece) =~= seq![x.name, rt]);
        assert(piece[0] == ' ');
        lemma_words_concat(pre, piece);
        lemma_no_hash(sp);
        lemma_no_comment_word(x.name);
        lemma_no_comment_word(rt);
        lemma_no_comment_concat(sp, x.name);
        lemma_no_comment_concat(sp + x.name, sp);
        lemma_no_comment_concat(sp + x.name + sp, rt);
        lemma_no_comment_concat(pre, piece);
        assert(spaced(sp));
        assert(spaced(x.name));
        assert(spaced(rt));
        lemma_spaced_concat(sp, x.name);
        lemma_spaced_concat(sp + x.name, sp);
        lemma_spaced_concat(sp + x.name + sp, rt);
        lemma_spaced_concat(pre, piece);
        if n == 1 {
            assert(pre.len() == 0);
            assert((pre + piece)[0] == piece[0]);
        } else {
            assert((pre + piece)[0] == pre[0]);
        }
        assert((pre + piece).last() == rt.last());
    } else {
        assert(words(per_section(secs, 0, part)) =~= Seq::<Seq<char>>::empty());
    }
}

pub proof fn lemma_read_dyn_concat(st: Draft, ln: nat, kw: Seq<char>, a: Seq<Seq<char>>, b: Seq<Seq<char>>)
    requires
        a.len() % 2 == 0,
    ensures
        read_dyn(st, ln, kw, a + b) == (match read_dyn(st, ln, kw, a) {
            LineStep::Next(s1) => read_dyn(s1, ln, kw, b),
            other => other,
        }),
    decreases a.len(),
{
    if a.len() == 0 {
        assert(a + b =~= b);
    } else {
        let t = a + b;
        assert(t[0] == a[0]);
        assert(t[1] == a[1]);
        assert(t.skip(2) =~= a.skip(2) + b);
        match find_sec(st.sections, a[0]) {
            Some(si) => match spec_parse_ramp(a[1]) {
                Some(r) => {
                    lemma_read_dyn_concat(
                        with_section(st, si, with_dyn(st.sections[si], kw, r)),
                        ln,
                        kw,
                        a.skip(2),
                        b,
                    );
                },
                None => {},
            },
            None => {},
        }
    }
}

/// The name/value pairs of the first `n` sections set their dynamics value of this part.
#[verifier::rlimit(50)]
#[verifier::spinoff_prover]
pub proof fn lemma_read_dyn_secs(st: Draft, ln: nat, secs: Seq<SectionV>, n: int, part: int)
    requires
        8 <= part <= 10,
        secs_ok(secs),
        0 <= n <= secs.len(),
        st.sections == staged(secs, 0, part),
    ensures
        read_dyn(st, ln, dyn_kw(part), dyn_toks(secs, n, part)) == LineStep::Next(
            Draft { sections: staged(secs, n, part), ..st },
        ),
        dyn_toks(secs, n, part).len() == 2 * n,
    decreases n,
{
    let kw = dyn_kw(part);
    if n == 0 {
        assert(staged(secs, 0, part) =~= st.sections);
        assert(Draft { sections: staged(secs, 0, part), ..st } =~= st);
    } else {
        lemma_read_dyn_secs(st, ln, secs, n - 1, part);
        let x = secs[n - 1];
        assert(section_ok(x));
        let st1 = Draft { sections: staged(secs, n - 1, part), ..st };
        let r = ramp_of(x, part);
        let pair = seq![x.name, ramp_text(r)];
        assert(dyn_toks(secs, n, part) == dyn_toks(secs, n - 1, part) + pair);
        lemma_read_dyn_concat(st, ln, kw, dyn_toks(secs, n - 1, part), pair);
        lemma_staged_names(secs, n - 1, part);
        lemma_find_sec(st1.sections, n - 1);
        assert(ramp_ok(r));
        lemma_ramp_text(r);
        reveal_strlit("gain");
        reveal_strlit("sub");
        reveal_strlit("mids");
        assert(st1.sections[n - 1] == stage(x, part));
        assert(with_dyn(stage(x, part), kw, r) =~= stage(x, part + 1)) by {
            if part == 9 {
                assert(kw[0] != "gain"@[0]);
            } else if part == 10 {
                assert(kw[0] != "gain"@[0]);
                assert(kw[0] != "sub"@[0]);
            }
        }
        let st2 = with_section(st1, n - 1, stage(x, part + 1));
        assert(pair.skip(2) =~= Seq::<Seq<char>>::empty());
        assert(read_dyn(st1, ln, kw, pair) == read_dyn(st2, ln, kw, pair.skip(2)));
        assert(st1.sections.update(n - 1, stage(x, part + 1)) =~= staged(secs, n, part));
        assert(st2 =~= Draft { sections: staged(secs, n, part), ..st });
    }
}

/// A dynamics line sets that value of every section.
#[verifier::rlimit(50)]
#[verifier::spinoff_prover]
pub proof fn lemma_dyn_line(st: Draft, secs: Seq<SectionV>, part: int)
    requires
        8 <= part <= 10,
        secs_ok(secs),
        secs.len() > 0,
        st.sections == staged(secs, 0, part),
    ensures
        reads_to(
            st,
            dyn_kw(part) + per_section(secs, secs.len() as int, part) + seq!['\n'],
            Draft { sections: staged(secs, secs.len() as int, part), ..st },
        ),
{
    let n = secs.len() as int;
    let kw = dyn_kw(part);
    let body = per_section(secs, n, part);
    let l = kw + body;
    let fin = Draft { sections: staged(secs, n, part), ..st };
    reveal_strlit("gain");
    reveal_strlit("sub");
    reveal_strlit("mids");
    reveal_strlit("bpm");
    reveal_strlit("section");
    reveal_strlit("chords");
    lemma_dyn_words(secs, n, part);
    assert(no_ws(kw));
    lemma_words_single(kw);
    lemma_words_concat(kw, body);
    lemma_no_hash(kw);
    lemma_no_comment_concat(kw, body);
    assert(spaced(kw));
    lemma_spaced_concat(kw, body);
    assert(words(l) =~= seq![kw] + dyn_toks(secs, n, part));
    assert(!kw.contains('.'));
    assert(words(l).drop_first() =~= dyn_toks(secs, n, part));
    assert forall|ln: nat| #[trigger] read_line(st, ln, l) == LineStep::Next(fin) by {
        lemma_read_line_shape(st, ln, l);
        lemma_read_dyn_secs(st, ln, secs, n, part);
        assert(kw != "bpm"@) by {
            assert(kw[0] != "bpm"@[0]);
        }
        assert(kw != "section"@) by {
            assert(kw.len() != "section"@.len());
        }
        assert(kw != "chords"@) by {
            assert(kw.len() != "chords"@.len());
        }
    }
    lemma_reads_line(st, l, fin);
}

// ---- the head of the text ----------------------------------------------------------------------------

/// A comment line and its end change nothing.
pub proof fn lemma_comment_text(st: Draft, c: Seq<char>)
    requires
        c.len() >= 2,
        c[0] == '#',
        c.last() == '\n',
        spaced(c.drop_last()),
    ensures
        reads_to(st, c, st),
        ends_nl(c),
{
    let l = c.drop_last();
    assert(l[0] == '#');
    lemma_comment_reads(st, l);
    lemma_reads_line(st, l, st);
    assert(l + seq!['\n'] =~= c);
}

/// A blank line and a comment line change nothing.
pub proof fn lemma_gap_comment_text(st: Draft, c: Seq<char>)
    requires
        c.len() >= 3,
        c[0] == '\n',
        c[1] == '#',
        c.last() == '\n',
        spaced(c.drop_first().drop_last()),
    ensures
        reads_to(st, c, st),
        ends_nl(c),
{
    let nl = seq!['\n'];
    lemma_blank_reads(st);
    lemma_reads_line(st, seq![], st);
    assert(Seq::<char>::empty() + nl =~= nl);
    lemma_comment_text(st, c.drop_first());
    lemma_reads_concat(st, nl, st, c.drop_first(), st);
    assert(nl + c.drop_first() =~= c);
}

/// The `bpm` line sets the tempo.
pub proof fn lemma_bpm_line(st: Draft, bpm: Seq<char>)
    requires
        is_float_lit(bpm),
    ensures
        reads_to(st, "bpm"@ + seq![' '] + bpm + seq!['\n'], Draft { bpm: bpm, ..st }),
{
    reveal_strlit("bpm");
    let kw = "bpm"@;
    let l = kw + seq![' '] + bpm;
    lemma_float_word(bpm);
    lemma_words_single(kw);
    lemma_words_single(bpm);
    lemma_words3(kw, bpm);
    lemma_no_hash(kw);
    lemma_no_hash(seq![' ']);
    lemma_no_comment_concat(kw, seq![' ']);
    lemma_no_comment_concat(kw + seq![' '], bpm);
    assert(spaced(kw));
    assert(spaced(seq![' ']));
    lemma_spaced_concat(kw, seq![' ']);
    lemma_spaced_concat(kw + seq![' '], bpm);
    assert(words(l) =~= seq![kw, bpm]);
    assert(!kw.contains('.'));
    let fin = Draft { bpm: bpm, ..st };
    assert forall|ln: nat| #[trigger] read_line(st, ln, l) == LineStep::Next(fin) by {
        lemma_read_line_shape(st, ln, l);
        assert(words(l).drop_first()[0] == bpm);
    }
    lemma_reads_line(st, l, fin);
}

/// The `chords` line adds the chords.
pub proof fn lemma_chords_line(st: Draft, cs: Seq<Chord>)
    requires
        cs.len() > 0,
    ensures
        reads_to(
            st,
            "chords"@ + seq![' '] + chords_joined(cs) + seq!['\n'],
            Draft { chords: st.chords + reread_chords(cs), ..st },
        ),
{
    reveal_strlit("chords");
    reveal_strlit("bpm");
    reveal_strlit("section");
    let kw = "chords"@;
    let j = chords_joined(cs);
    let l = kw + seq![' '] + j;
    lemma_chord_words(cs);
    lemma_read_chord_toks(cs);
    lemma_words_single(kw);
    lemma_words3(kw, j);
    lemma_no_hash(kw);
    lemma_no_hash(seq![' ']);
    lemma_no_comment_concat(kw, seq![' ']);
    lemma_no_comment_concat(kw + seq![' '], j);
    assert(spaced(kw));
    assert(spaced(seq![' ']));
    lemma_spaced_concat(kw, seq![' ']);
    lemma_spaced_concat(kw + seq![' '], j);
    assert(words(l) =~= seq![kw] + chord_toks(cs));
    assert(words(l).drop_first() =~= chord_toks(cs));
    assert(!kw.contains('.'));
    let fin = Draft { chords: st.chords + reread_chords(cs), ..st };
    assert forall|ln: nat| #[trigger] read_line(st, ln, l) == LineStep::Next(fin) by {
        lemma_read_line_shape(st, ln, l);
        assert(kw != "bpm"@) by {
            assert(kw.len() != "bpm"@.len());
        }
        assert(kw != "section"@) by {
            assert(kw.len() != "section"@.len());
        }
    }
    lemma_reads_line(st, l, fin);
}

/// A global `set` line of knobs the DSL writes faithfully sets them.
pub proof fn lemma_set_line_plain(st: Draft, ps: Seq<(Seq<char>, Seq<char>)>)
    requires
        knobs_ok(ps),
        st.params == Seq::<(Seq<char>, Seq<char>)>::empty(),
    ensures
        line_reads(st, "set"@ + seq![' '] + knobs_joined(ps), Draft { params: ps, ..st }),
        no_comment("set"@ + seq![' '] + knobs_joined(ps)),
        spaced("set"@ + seq![' '] + knobs_joined(ps)),
{
    reveal_strlit("set");
    reveal_strlit("bpm");
    reveal_strlit("section");
    reveal_strlit("chords");
    reveal_strlit("gain");
    reveal_strlit("sub");
    reveal_strlit("mids");
    let kw = "set"@;
    let j = knobs_joined(ps);
    let l = kw + seq![' '] + j;
    lemma_knob_words(ps);
    lemma_words_single(kw);
    lemma_words3(kw, j);
    lemma_no_hash(kw);
    lemma_no_hash(seq![' ']);
    lemma_no_comment_concat(kw, seq![' ']);
    lemma_no_comment_concat(kw + seq![' '], j);
    assert(spaced(kw));
    assert(spaced(seq![' ']));
    lemma_spaced_concat(kw, seq![' ']);
    lemma_spaced_concat(kw + seq![' '], j);
    assert(words(l) =~= seq![kw] + knob_toks(ps));
    assert(words(l).drop_first() =~= knob_toks(ps).skip(0));
    assert(ps.take(0) =~= st.params);
    assert(!kw.contains('.'));
    let fin = Draft { params: ps, ..st };
    assert forall|ln: nat| #[trigger] read_line(st, ln, l) == LineStep::Next(fin) by {
        lemma_read_line_shape(st, ln, l);
        lemma_read_knobs_global(st, ln, ps, 0);
        assert(kw != "bpm"@) by {
            assert(kw[0] != "bpm"@[0]);
        }
        assert(kw != "section"@) by {
            assert(kw.len() != "section"@.len());
        }
        assert(kw != "chords"@) by {
            assert(kw.len() != "chords"@.len());
        }
        assert(kw != "gain"@) by {
            assert(kw.len() != "gain"@.len());
        }
        assert(kw != "sub"@) by {
            assert(kw[1] != "sub"@[1]);
        }
        assert(kw != "mids"@) by {
            assert(kw.len() != "mids"@.len());
        }
    }
}

/// A line of knobs after a head `pre` reads as the line of the knobs kept: a key starting with
/// `#` starts a comment there.
pub proof fn lemma_knob_line_cut(st: Draft, ln: nat, pre: Seq<char>, ps: Seq<(Seq<char>, Seq<char>)>)
    requires
        knobs_writable(ps),
        pre.len() > 0,
        !is_ws(pre[0]),
        no_comment(pre + seq![' '] + knobs_joined(kept_knobs(ps))),
    ensures
        read_line(st, ln, pre + seq![' '] + knobs_joined(ps)) == read_line(
            st,
            ln,
            pre + seq![' '] + knobs_joined(kept_knobs(ps)),
        ),
{
    lemma_kept_knobs(ps);
    lemma_first_hashed_key(ps, 0);
    let j = first_hashed_key(ps, 0);
    let kp = kept_knobs(ps);
    let toks = knob_toks(ps);
    lemma_knobs_joined(ps);
    lemma_knobs_joined(kp);
    assert(knob_toks(kp) =~= toks.take(j));
    let plain = pre + seq![' '] + knobs_joined(kp);
    if j == ps.len() {
        assert(kp =~= ps);
    } else {
        let h = ps[j].0;
        assert(hashed(h));
        assert(toks[j] == knob_tok(ps[j]));
        assert(toks[j][0] == '#');
        let rest = toks.skip(j);
        assert(rest[0] == toks[j]);
        lemma_joined_first(rest);
        let b = seq![' '] + words_joined(rest);
        assert(b[1] == '#');
        if j == 0 {
            assert(kp.len() == 0);
            assert(knobs_joined(kp) =~= Seq::<char>::empty());
            assert(rest =~= toks);
            assert(pre + seq![' '] + knobs_joined(ps) =~= pre + b);
            assert(plain =~= pre + seq![' ']);
            assert(no_comment(pre)) by {
                assert forall|i: int| 0 <= i < pre.len() && #[trigger] pre[i] == '#' implies i > 0
                    && !is_ascii_ws(pre[i - 1]) by {
                    assert(plain[i] == pre[i]);
                    assert(plain[i - 1] == pre[i - 1]);
                }
            }
            lemma_read_line_cut(st, ln, pre, b);
        } else {
            lemma_joined_split(toks, j);
            assert(pre + seq![' '] + knobs_joined(ps) =~= plain + b);
            lemma_knob_words(kp);
            assert(plain.last() == knobs_joined(kp).last());
            assert(plain[0] == pre[0]);
            lemma_read_line_cut(st, ln, plain, b);
            lemma_read_line_space(st, ln, plain);
        }
    }
}

/// Keys without whitespace joined with their values by `=` and with spaces: only spaces.
pub proof fn lemma_knobs_spaced(ps: Seq<(Seq<char>, Seq<char>)>)
    requires
        knobs_writable(ps),
    ensures
        spaced(knobs_joined(ps)),
{
    lemma_knobs_joined(ps);
    let toks = knob_toks(ps);
    assert forall|k: int| 0 <= k < toks.len() implies no_ws(#[trigger] toks[k]) by {
        let p = ps[k];
        lemma_float_word(p.1);
        let t = toks[k];
        assert(t == knob_tok(p));
        assert forall|i: int| 0 <= i < t.len() implies !is_ws(#[trigger] t[i]) by {
            if i < p.0.len() {
                assert(t[i] == p.0[i]);
            } else if i == p.0.len() {
                assert(t[i] == '=');
            } else {
                assert(t[i] == p.1[i - p.0.len() - 1]);
            }
        }
    }
    lemma_joined_spaced(toks);
}

/// The global `set` line sets the knobs it keeps.
pub proof fn lemma_set_line(st: Draft, ps: Seq<(Seq<char>, Seq<char>)>)
    requires
        ps.len() > 0,
        knobs_writable(ps),
        st.params == Seq::<(Seq<char>, Seq<char>)>::empty(),
    ensures
        reads_to(
            st,
            "set"@ + seq![' '] + knobs_joined(ps) + seq!['\n'],
            Draft { params: kept_knobs(ps), ..st },
        ),
{
    reveal_strlit("set");
    lemma_kept_knobs(ps);
    let kp = kept_knobs(ps);
    let fin = Draft { params: kp, ..st };
    lemma_set_line_plain(st, kp);
    let full = "set"@ + seq![' '] + knobs_joined(ps);
    assert forall|ln: nat| #[trigger] read_line(st, ln, full) == LineStep::Next(fin) by {
        lemma_knob_line_cut(st, ln, "set"@, ps);
    }
    lemma_knobs_spaced(ps);
    assert(spaced("set"@));
    assert(spaced(seq![' ']));
    lemma_spaced_concat("set"@, seq![' ']);
    lemma_spaced_concat("set"@ + seq![' '], knobs_joined(ps));
    lemma_reads_line(st, full, fin);
}

// ---- the whole text ---------------------------------------------------------------------------------

/// A score whose text reads back: laid out, a literal tempo, chord roots in octave 3, writable
/// knobs, and sections that read back under names that are all different.
pub open spec fn writable(s: ScoreV) -> bool {
    &&& score_wf(s)
    &&& is_float_lit(s.bpm)
    &&& knobs_writable(s.params)
    &&& secs_ok(s.sections)
}

/// A section as read back, at its place in the score.
pub open spec fn reloaded_section(x: SectionV) -> SectionV {
    SectionV { start_bar: x.start_bar, ..stage(x, 11) }
}

/// A score as read back from its text: the chords as their texts name them, the knobs before
/// the first key starting with `#`, each section as read back, all else the same.
pub open spec fn reloaded(s: ScoreV) -> ScoreV {
    ScoreV {
        chords: reread_chords(s.chords),
        params: kept_knobs(s.params),
        sections: Seq::new(s.sections.len(), |i: int| reloaded_section(s.sections[i])),
        ..s
    }
}

pub proof fn lemma_chain(st: Draft, a: Seq<char>, s1: Draft, b: Seq<char>, s2: Draft)
    requires
        ends_nl(a),
        ends_nl(b),
        reads_to(st, a, s1),
        reads_to(s1, b, s2),
    ensures
        reads_to(st, a + b, s2),
        ends_nl(a + b),
{
    lemma_reads_concat(st, a, s1, b, s2);
    lemma_ends_nl_concat(a, b);
}

pub proof fn lemma_staged_full(secs: Seq<SectionV>, k: int)
    ensures
        staged(secs, secs.len() as int, k) == staged(secs, 0, k + 1),
{
    assert(staged(secs, secs.len() as int, k) =~= staged(secs, 0, k + 1));
}

/// The head of the text: the title comment, the tempo, the chords and a blank line.
#[verifier::rlimit(50)]
#[verifier::spinoff_prover]
pub proof fn lemma_header(st: Draft, s: ScoreV)
    requires
        writable(s),
        st.chords == Seq::<Chord>::empty(),
    ensures
        reads_to(st, header_block(s), Draft { bpm: s.bpm, chords: reread_chords(s.chords), ..st }),
        ends_nl(header_block(s)),
{
    let h1 = "# martin score — tracker DSL. Edit + load with MARTIN_SCORE=<this file>.\n"@;
    reveal_strlit("# martin score — tracker DSL. Edit + load with MARTIN_SCORE=<this file>.\n");
    reveal_strlit("bpm ");
    reveal_strlit("bpm");
    reveal_strlit("\n");
    reveal_strlit("chords ");
    reveal_strlit("chords");
    reveal_strlit("\n\n");
    let b = "bpm"@ + seq![' '] + s.bpm + seq!['\n'];
    let c = "chords"@ + seq![' '] + chords_joined(s.chords) + seq!['\n'];
    let e = seq!['\n'];
    assert(header_block(s) =~= h1 + b + c + e);
    assert(spaced(h1.drop_last()));
    lemma_comment_text(st, h1);
    let d1 = Draft { bpm: s.bpm, ..st };
    lemma_bpm_line(st, s.bpm);
    lemma_chain(st, h1, st, b, d1);
    let d2 = Draft { bpm: s.bpm, chords: reread_chords(s.chords), ..st };
    lemma_chords_line(d1, s.chords);
    assert(d1.chords + reread_chords(s.chords) =~= reread_chords(s.chords));
    assert(Draft { chords: d1.chords + reread_chords(s.chords), ..d1 } =~= d2);
    lemma_chain(st, h1 + b, d1, c, d2);
    lemma_blank_reads(d2);
    lemma_reads_line(d2, seq![], d2);
    assert(Seq::<char>::empty() + seq!['\n'] =~= e);
    lemma_chain(st, h1 + b + c, d2, e, d2);
}

/// The knob block: a comment, the `set` line and a blank line, when there are knobs.
#[verifier::rlimit(50)]
#[verifier::spinoff_prover]
pub proof fn lemma_knobs_block(st: Draft, ps: Seq<(Seq<char>, Seq<char>)>)
    requires
        knobs_writable(ps),
        st.params == Seq::<(Seq<char>, Seq<char>)>::empty(),
    ensures
        reads_to(st, knobs_block(ps), Draft { params: kept_knobs(ps), ..st }),
        ends_nl(knobs_block(ps)),
{
    if ps.len() == 0 {
        assert(kept_knobs(ps) =~= ps);
        assert(Draft { params: kept_knobs(ps), ..st } =~= st);
        assert(knobs_block(ps) =~= Seq::<char>::empty());
        lemma_reads_nothing(st);
    } else {
        let k1 = "# mix/fx knobs (tune the SOUND here, no recompile — synth reads these).\n"@;
        reveal_strlit("# mix/fx knobs (tune the SOUND here, no recompile — synth reads these).\n");
        reveal_strlit("set ");
        reveal_strlit("set");
        reveal_strlit("\n\n");
        let l = "set"@ + seq![' '] + knobs_joined(ps) + seq!['\n'];
        let e = seq!['\n'];
        assert(knobs_block(ps) =~= k1 + l + e);
        assert(spaced(k1.drop_last()));
        lemma_comment_text(st, k1);
        let d1 = Draft { params: kept_knobs(ps), ..st };
        lemma_set_line(st, ps);
        lemma_chain(st, k1, st, l, d1);
        lemma_blank_reads(d1);
        lemma_reads_line(d1, seq![], d1);
        assert(Seq::<char>::empty() + seq!['\n'] =~= e);
        lemma_chain(st, k1 + l, d1, e, d1);
    }
}

pub open spec fn head_text(s: ScoreV) -> Seq<char> {
    header_block(s) + knobs_block(s.params) + "# section <name> <bars> <phase-bars,csv> [fill]\n"@
        + all_sections(s, 0) + all_sections(s, 1) + all_sections(s, 2) + all_sections(s, 3)
}

pub open spec fn lanes_text(s: ScoreV) -> Seq<char> {
    "\n# patterns: <section>.<kick|snare|hat|stab> p<N>|fill: 16 steps (x=hit .=rest)\n"@
        + all_sections(s, 4)
        + "\n# melody: <section>.lead p<N>|fill: 16 note slots (A4 C#5 . E5 …; . = rest)\n"@
        + all_sections(s, 5)
        + "\n# arp: <section>.arp p<N>|fill — a second melodic line, same note grammar\n"@
        + all_sections(s, 6)
        + "\n# bass: <section>.bass p<N>|fill — an articulated bassline, same note grammar\n"@
        + all_sections(s, 7)
}

pub open spec fn dynamics_text(s: ScoreV) -> Seq<char> {
    "\n# dynamics 0..1 per section (`v` constant or `a>b` ramp across the section)\n"@ + (dyn_kw(8)
        + all_sections(s, 8) + seq!['\n']) + (dyn_kw(9) + all_sections(s, 9) + seq!['\n']) + (dyn_kw(
        10,
    ) + all_sections(s, 10) + seq!['\n'])
}

/// The head of the text (title, tempo, chords, knobs, section lines, chord / knob / FX lines).
#[verifier::rlimit(80)]
#[verifier::spinoff_prover]
pub proof fn lemma_head_reads(s: ScoreV)
    requires
        writable(s),
    ensures
        reads_to(
            initial_draft(),
            head_text(s),
            Draft { bpm: s.bpm, chords: reread_chords(s.chords), sections: staged(s.sections, 0, 4), params: kept_knobs(s.params) },
        ),
        ends_nl(head_text(s)),
{
    let secs = s.sections;
    let n = secs.len() as int;
    let d0 = initial_draft();
    let h = header_block(s);
    let d1 = Draft { bpm: s.bpm, chords: reread_chords(s.chords), ..d0 };
    lemma_header(d0, s);
    let kb = knobs_block(s.params);
    let d2 = Draft { params: kept_knobs(s.params), ..d1 };
    lemma_knobs_block(d1, s.params);
    lemma_chain(d0, h, d1, kb, d2);
    let c1 = "# section <name> <bars> <phase-bars,csv> [fill]\n"@;
    reveal_strlit("# section <name> <bars> <phase-bars,csv> [fill]\n");
    assert(spaced(c1.drop_last()));
    lemma_comment_text(d2, c1);
    lemma_chain(d0, h + kb, d2, c1, d2);
    let t0 = h + kb + c1;
    let a0 = all_sections(s, 0);
    lemma_section_lines(d2, secs, n);
    let d3 = Draft { sections: staged(secs, 0, 1), ..d2 };
    assert(Seq::new(n as nat, |i: int| stage(secs[i], 1)) =~= staged(secs, 0, 1));
    lemma_chain(d0, t0, d2, a0, d3);
    let a1 = all_sections(s, 1);
    lemma_per_section(d3, secs, n, 1);
    lemma_staged_full(secs, 1);
    let d4 = Draft { sections: staged(secs, 0, 2), ..d2 };
    assert(Draft { sections: staged(secs, n, 1), ..d3 } =~= d4);
    lemma_chain(d0, t0 + a0, d3, a1, d4);
    let a2 = all_sections(s, 2);
    lemma_per_section(d4, secs, n, 2);
    lemma_staged_full(secs, 2);
    let d5 = Draft { sections: staged(secs, 0, 3), ..d2 };
    assert(Draft { sections: staged(secs, n, 2), ..d4 } =~= d5);
    lemma_chain(d0, t0 + a0 + a1, d4, a2, d5);
    let a3 = all_sections(s, 3);
    lemma_per_section(d5, secs, n, 3);
    lemma_staged_full(secs, 3);
    let d6 = Draft { sections: staged(secs, 0, 4), ..d2 };
    assert(Draft { sections: staged(secs, n, 3), ..d5 } =~= d6);
    lemma_chain(d0, t0 + a0 + a1 + a2, d5, a3, d6);
    assert(d6 =~= Draft { bpm: s.bpm, chords: reread_chords(s.chords), sections: staged(s.sections, 0, 4), params: kept_knobs(s.params) });
}

/// The lane lines: drums, lead, arp and bass of every section.
#[verifier::rlimit(80)]
#[verifier::spinoff_prover]
pub proof fn lemma_lanes_reads(s: ScoreV, d: Draft)
    requires
        writable(s),
        d.sections == staged(s.sections, 0, 4),
    ensures
        reads_to(d, lanes_text(s), Draft { sections: staged(s.sections, 0, 8), ..d }),
        ends_nl(lanes_text(s)),
{
    let secs = s.sections;
    let n = secs.len() as int;
    let c2 = "\n# patterns: <section>.<kick|snare|hat|stab> p<N>|fill: 16 steps (x=hit .=rest)\n"@;
    reveal_strlit("\n# patterns: <section>.<kick|snare|hat|stab> p<N>|fill: 16 steps (x=hit .=rest)\n");
    assert(spaced(c2.drop_first().drop_last()));
    lemma_gap_comment_text(d, c2);
    let a4 = all_sections(s, 4);
    lemma_per_section(d, secs, n, 4);
    lemma_staged_full(secs, 4);
    let d7 = Draft { sections: staged(secs, 0, 5), ..d };
    assert(Draft { sections: staged(secs, n, 4), ..d } =~= d7);
    lemma_chain(d, c2, d, a4, d7);
    let t2 = c2 + a4;
    let c3 = "\n# melody: <section>.lead p<N>|fill: 16 note slots (A4 C#5 . E5 …; . = rest)\n"@;
    reveal_strlit("\n# melody: <section>.lead p<N>|fill: 16 note slots (A4 C#5 . E5 …; . = rest)\n");
    assert(spaced(c3.drop_first().drop_last()));
    lemma_gap_comment_text(d7, c3);
    lemma_chain(d, t2, d7, c3, d7);
    let a5 = all_sections(s, 5);
    lemma_per_section(d7, secs, n, 5);
    lemma_staged_full(secs, 5);
    let d8 = Draft { sections: staged(secs, 0, 6), ..d };
    assert(Draft { sections: staged(secs, n, 5), ..d7 } =~= d8);
    lemma_chain(d, t2 + c3, d7, a5, d8);
    let t3 = t2 + c3 + a5;
    let c4 = "\n# arp: <section>.arp p<N>|fill — a second melodic line, same note grammar\n"@;
    reveal_strlit("\n# arp: <section>.arp p<N>|fill — a second melodic line, same note grammar\n");
    assert(spaced(c4.drop_first().drop_last()));
    lemma_gap_comment_text(d8, c4);
    lemma_chain(d, t3, d8, c4, d8);
    let a6 = all_sections(s, 6);
    lemma_per_section(d8, secs, n, 6);
    lemma_staged_full(secs, 6);
    let d9 = Draft { sections: staged(secs, 0, 7), ..d };
    assert(Draft { sections: staged(secs, n, 6), ..d8 } =~= d9);
    lemma_chain(d, t3 + c4, d8, a6, d9);
    let t4 = t3 + c4 + a6;
    let c5 = "\n# bass: <section>.bass p<N>|fill — an articulated bassline, same note grammar\n"@;
    reveal_strlit("\n# bass: <section>.bass p<N>|fill — an articulated bassline, same note grammar\n");
    assert(spaced(c5.drop_first().drop_last()));
    lemma_gap_comment_text(d9, c5);
    lemma_chain(d, t4, d9, c5, d9);
    let a7 = all_sections(s, 7);
    lemma_per_section(d9, secs, n, 7);
    lemma_staged_full(secs, 7);
    let d10 = Draft { sections: staged(secs, 0, 8), ..d };
    assert(Draft { sections: staged(secs, n, 7), ..d9 } =~= d10);
    lemma_chain(d, t4 + c5, d9, a7, d10);
}

/// The dynamics lines.
#[verifier::rlimit(80)]
#[verifier::spinoff_prover]
pub proof fn lemma_dynamics_reads(s: ScoreV, d: Draft)
    requires
        writable(s),
        d.sections == staged(s.sections, 0, 8),
    ensures
        reads_to(d, dynamics_text(s), Draft { sections: staged(s.sections, 0, 11), ..d }),
{
    let secs = s.sections;
    let n = secs.len() as int;
    let c6 = "\n# dynamics 0..1 per section (`v` constant or `a>b` ramp across the section)\n"@;
    reveal_strlit("\n# dynamics 0..1 per section (`v` constant or `a>b` ramp across the section)\n");
    assert(spaced(c6.drop_first().drop_last()));
    lemma_gap_comment_text(d, c6);
    let g = dyn_kw(8) + all_sections(s, 8) + seq!['\n'];
    lemma_dyn_line(d, secs, 8);
    lemma_staged_full(secs, 8);
    let d11 = Draft { sections: staged(secs, 0, 9), ..d };
    assert(Draft { sections: staged(secs, n, 8), ..d } =~= d11);
    assert(g.last() == '\n');
    lemma_chain(d, c6, d, g, d11);
    let u = dyn_kw(9) + all_sections(s, 9) + seq!['\n'];
    lemma_dyn_line(d11, secs, 9);
    lemma_staged_full(secs, 9);
    let d12 = Draft { sections: staged(secs, 0, 10), ..d };
    assert(Draft { sections: staged(secs, n, 9), ..d11 } =~= d12);
    assert(u.last() == '\n');
    lemma_chain(d, c6 + g, d11, u, d12);
    let m = dyn_kw(10) + all_sections(s, 10) + seq!['\n'];
    lemma_dyn_line(d12, secs, 10);
    lemma_staged_full(secs, 10);
    let d13 = Draft { sections: staged(secs, 0, 11), ..d };
    assert(Draft { sections: staged(secs, n, 10), ..d12 } =~= d13);
    assert(m.last() == '\n');
    lemma_chain(d, c6 + g + u, d12, m, d13);
}

/// The text is its head, its lane lines and its dynamics lines.
#[verifier::rlimit(80)]
#[verifier::spinoff_prover]
pub proof fn lemma_text_parts(s: ScoreV)
    ensures
        spec_to_dsl(s) == head_text(s) + lanes_text(s) + dynamics_text(s),
{
    reveal_strlit("gain");
    reveal_strlit("sub");
    reveal_strlit("mids");
    reveal_strlit("\n");
    assert(spec_to_dsl(s) =~= head_text(s) + lanes_text(s) + dynamics_text(s));
}

/// The whole text reads to the draft holding the score's tempo, chords, knobs and every section
/// as read back.
#[verifier::rlimit(50)]
#[verifier::spinoff_prover]
pub proof fn lemma_text_reads(s: ScoreV)
    requires
        writable(s),
    ensures
        reads_to(
            initial_draft(),
            spec_to_dsl(s),
            Draft {
                bpm: s.bpm,
                chords: reread_chords(s.chords),
                sections: staged(s.sections, 0, 11),
                params: kept_knobs(s.params),
            },
        ),
{
    let d6 = Draft { bpm: s.bpm, chords: reread_chords(s.chords), sections: staged(s.sections, 0, 4), params: kept_knobs(s.params) };
    let d10 = Draft { sections: staged(s.sections, 0, 8), ..d6 };
    let d13 = Draft { sections: staged(s.sections, 0, 11), ..d6 };
    lemma_head_reads(s);
    lemma_lanes_reads(s, d6);
    lemma_dynamics_reads(s, d10);
    assert(Draft { sections: staged(s.sections, 0, 11), ..d10 } == d13);
    lemma_chain(initial_draft(), head_text(s), d6, lanes_text(s), d10);
    lemma_reads_concat(initial_draft(), head_text(s) + lanes_text(s), d10, dynamics_text(s), d13);
    lemma_text_parts(s);
}

/// Reading back the text `to_dsl` writes gives the score as read back: the same tempo, chords,
/// knobs and section layout, each section with the same name, bars, fill bar, dynamics, chord
/// override, knobs and FX, and lanes that keep the phases with hits or notes.
#[verifier::rlimit(50)]
#[verifier::spinoff_prover]
pub proof fn lemma_dsl_reads_back(s: ScoreV)
    requires
        writable(s),
    ensures
        spec_from_str(spec_to_dsl(s)) == SpecParse::Parsed(reloaded(s)),
{
    lemma_text_reads(s);
    let secs = s.sections;
    let n = secs.len() as int;
    let fin = Draft { bpm: s.bpm, chords: reread_chords(s.chords), sections: staged(secs, 0, 11), params: kept_knobs(s.params) };
    assert(read_lines(initial_draft(), lines(spec_to_dsl(s)), 1) == LineStep::Next(fin));
    let fs = fin.sections;
    assert forall|i: int| 0 <= i < fs.len() implies (#[trigger] fs[i]).bars == secs[i].bars by {}
    lemma_bars_before_same(fs, secs, n);
    assert forall|i: int| 0 <= i < n implies #[trigger] placed_at(fs[i], bars_before(fs, i))
        == reloaded_section(secs[i]) by {
        lemma_bars_before_same(fs, secs, i);
        assert(secs[i].start_bar == bars_before(secs, i));
        assert(placed_at(fs[i], bars_before(fs, i)) =~= reloaded_section(secs[i]));
    }
    match finish(fin) {
        SpecParse::Parsed(t) => {
            assert(t.sections =~= reloaded(s).sections);
            assert(t =~= reloaded(s));
        },
        _ => {},
    }
}

// ---- what reads back plays the same ------------------------------------------------------------

/// The phases read back: those with a hit as they were, the others silent.
pub proof fn lemma_drum_rebuilt(ph: Seq<Seq<bool>>)
    ensures
        drum_rebuilt(ph).len() <= ph.len(),
        forall|p: int| 0 <= p < drum_rebuilt(ph).len() ==> #[trigger] drum_rebuilt(ph)[p] == (if has_hit(
            ph[p],
        ) {
            ph[p]
        } else {
            silent_bar()
        }),
        forall|p: int| drum_rebuilt(ph).len() <= p < ph.len() ==> !has_hit(#[trigger] ph[p]),
    decreases ph.len(),
{
    if ph.len() > 0 {
        let pre = ph.drop_last();
        lemma_drum_rebuilt(pre);
        let r = drum_rebuilt(pre);
        let n = ph.len() - 1;
        assert forall|p: int| 0 <= p < n implies #[trigger] pre[p] == ph[p] by {}
        if has_hit(ph.last()) {
            let t = drum_rebuilt(ph);
            assert(t == r + Seq::new((n - r.len()) as nat, |i: int| silent_bar()) + seq![ph.last()]);
            assert forall|p: int| 0 <= p < t.len() implies #[trigger] t[p] == (if has_hit(ph[p]) {
                ph[p]
            } else {
                silent_bar()
            }) by {
                if p < r.len() {
                    assert(pre[p] == ph[p]);
                } else if p < n {
                    assert(!has_hit(pre[p]));
                } else {
                    assert(ph[p] == ph.last());
                }
            }
        } else {
            assert forall|p: int| r.len() <= p < ph.len() implies !has_hit(#[trigger] ph[p]) by {
                if p < n {
                    assert(!has_hit(pre[p]));
                }
            }
            assert forall|p: int| 0 <= p < r.len() implies #[trigger] r[p] == (if has_hit(ph[p]) {
                ph[p]
            } else {
                silent_bar()
            }) by {
                assert(pre[p] == ph[p]);
            }
        }
    }
}

/// A grid of 16 steps without a hit is the silent bar.
pub proof fn lemma_no_hit_silent(g: Seq<bool>)
    requires
        g.len() == 16,
        !has_hit(g),
    ensures
        g == silent_bar(),
{
    assert forall|i: int| 0 <= i < 16 implies #[trigger] g[i] == silent_bar()[i] by {
        if g[i] {
            assert(has_hit(g));
        }
    }
    assert(g =~= silent_bar());
}

/// A drum lane read back plays every phase as before, and the fill bar when the section has one.
pub proof fn lemma_lane_reloaded(l: LaneV, fill: bool, p: u8)
    requires
        lane_ok(l),
        p != 255 || fill,
    ensures
        lane_at(lane_reloaded(l, fill), p) == lane_at(l, p),
{
    lemma_drum_rebuilt(l.phases);
    let r = drum_rebuilt(l.phases);
    if p == 255 {
        if !has_hit(l.fill) {
            lemma_no_hit_silent(l.fill);
        }
    } else if (p as int) < r.len() {
        let g = l.phases[p as int];
        if !has_hit(g) {
            lemma_no_hit_silent(g);
        }
    } else if (p as int) < l.phases.len() {
        let g = l.phases[p as int];
        assert(!has_hit(g));
        lemma_no_hit_silent(g);
    }
}

/// The phrases read back: those with a note as they were, the others empty.
pub proof fn lemma_notes_rebuilt(ph: Seq<Seq<Seq<Option<i32>>>>)
    ensures
        notes_rebuilt(ph).len() <= ph.len(),
        forall|p: int| 0 <= p < notes_rebuilt(ph).len() ==> #[trigger] notes_rebuilt(ph)[p] == (
        if phrase_has_note(ph[p]) {
            ph[p]
        } else {
            seq![]
        }),
        forall|p: int| notes_rebuilt(ph).len() <= p < ph.len() ==> !phrase_has_note(#[trigger] ph[p]),
    decreases ph.len(),
{
    if ph.len() > 0 {
        let pre = ph.drop_last();
        lemma_notes_rebuilt(pre);
        let r = notes_rebuilt(pre);
        let n = ph.len() - 1;
        assert forall|p: int| 0 <= p < n implies #[trigger] pre[p] == ph[p] by {}
        if phrase_has_note(ph.last()) {
            let t = notes_rebuilt(ph);
            assert(t == r + Seq::new((n - r.len()) as nat, |i: int| Seq::<Seq<Option<i32>>>::empty())
                + seq![ph.last()]);
            assert forall|p: int| 0 <= p < t.len() implies #[trigger] t[p] == (if phrase_has_note(
                ph[p],
            ) {
                ph[p]
            } else {
                seq![]
            }) by {
                if p < r.len() {
                    assert(pre[p] == ph[p]);
                } else if p < n {
                    assert(!phrase_has_note(pre[p]));
                } else {
                    assert(ph[p] == ph.last());
                }
            }
        } else {
            assert forall|p: int| r.len() <= p < ph.len() implies !phrase_has_note(#[trigger] ph[p]) by {
                if p < n {
                    assert(!phrase_has_note(pre[p]));
                }
            }
            assert forall|p: int| 0 <= p < r.len() implies #[trigger] r[p] == (if phrase_has_note(
                ph[p],
            ) {
                ph[p]
            } else {
                seq![]
            }) by {
                assert(pre[p] == ph[p]);
            }
        }
    }
}

/// A note lane read back plays the same bar at every point of the section.
pub proof fn lemma_notes_reloaded(l: NoteLaneV, into: u32)
    requires
        notes_ok(l),
    ensures
        note_lane_bar(notes_reloaded(l), into) == note_lane_bar(l, into),
{
    lemma_notes_rebuilt(l.phases);
    let r = notes_rebuilt(l.phases);
    if l.phases.len() > 0 {
        let ph0 = l.phases[0];
        if !phrase_has_note(ph0) && ph0.len() > 0 {
            let k = (into as int) % (ph0.len() as int);
            assert(phrase_ok(ph0));
            assert(bar_ok(ph0[k]));
            assert forall|i: int| 0 <= i < 16 implies #[trigger] ph0[k][i] == rest_bar()[i] by {
                if ph0[k][i] is Some {
                    assert(phrase_has_note(ph0));
                }
            }
            assert(ph0[k] =~= rest_bar());
        }
        if r.len() > 0 {
            assert(r[0] == (if phrase_has_note(ph0) {
                ph0
            } else {
                seq![]
            }));
        } else {
            assert(!phrase_has_note(ph0));
        }
    }
}

/// Where a bar falls among the phases, for phases read back.
pub proof fn lemma_norm_phases(x: SectionV, into: u32)
    requires
        x.phases.len() > 0 || !x.fill,
    ensures
        spec_phase_and_offset(stage(x, 11), into) == spec_phase_and_offset(x, into),
{
    if x.phases.len() == 0 {
        let ph = seq![x.bars];
        assert(norm_phases(x) == ph);
        assert(psum(ph, 0) == 0);
        assert(psum(ph, 1) == x.bars);
        assert(psum(x.phases, 0) == 0);
        if (into as int) < x.bars {
            assert(locate(ph, into as int, 0) == (0int, into as int));
        } else {
            assert(locate(ph, into as int, 1) == (0int, into as int));
            assert(locate(ph, into as int, 0) == (0int, into as int));
        }
        assert(locate(x.phases, into as int, 0) == (0int, into as int));
    }
}

/// The section scan depends only on where sections start.
pub proof fn lemma_sec_index_from_same(a: Seq<SectionV>, b: Seq<SectionV>, bar: int, i: int, idx: int)
    requires
        a.len() == b.len(),
        0 <= i,
        forall|k: int| 0 <= k < a.len() ==> (#[trigger] a[k]).start_bar == b[k].start_bar,
    ensures
        sec_index_from(a, bar, i, idx) == sec_index_from(b, bar, i, idx),
    decreases a.len() - i,
{
    if 0 <= i < a.len() {
        assert(a[i].start_bar == b[i].start_bar);
        lemma_sec_index_from_same(a, b, bar, i + 1, i);
    }
}

/// The settings a section keeps when read back.
pub open spec fn same_settings(a: SectionV, b: SectionV) -> bool {
    &&& a.name == b.name
    &&& a.bars == b.bars
    &&& a.fill == b.fill
    &&& a.gain == b.gain
    &&& a.sub == b.sub
    &&& a.mids == b.mids
    &&& a.chords == reread_chords(b.chords)
    &&& a.params == kept_knobs(b.params)
    &&& a.fx == kept_fx(b.fx)
    &&& a.start_bar == b.start_bar
}

/// A section read back keeps its settings, places its bars among its phases alike, and plays the same
/// lanes: every drum phase (the fill bar when it has one) and every bar of every note lane.
pub proof fn lemma_section_plays_alike(x: SectionV)
    requires
        section_ok(x),
    ensures
        same_settings(reloaded_section(x), x),
        forall|into: u32| #[trigger] spec_phase_and_offset(reloaded_section(x), into)
            == spec_phase_and_offset(x, into),
        forall|inst: Inst, p: u8| (p != 255 || x.fill) ==> #[trigger] lane_at(
            lane_of(reloaded_section(x), inst),
            p,
        ) == lane_at(lane_of(x, inst), p),
        forall|v: Voice, into: u32| #[trigger] note_lane_bar(voice_lane(reloaded_section(x), v), into)
            == note_lane_bar(voice_lane(x, v), into),
{
    let y = reloaded_section(x);
    assert forall|into: u32| #[trigger] spec_phase_and_offset(y, into) == spec_phase_and_offset(x, into) by {
        lemma_norm_phases(x, into);
        assert(spec_phase_and_offset(y, into) == spec_phase_and_offset(stage(x, 11), into));
    }
    assert forall|inst: Inst, p: u8| (p != 255 || x.fill) implies #[trigger] lane_at(lane_of(y, inst), p)
        == lane_at(lane_of(x, inst), p) by {
        lemma_lane_reloaded(lane_of(x, inst), x.fill, p);
    }
    assert forall|v: Voice, into: u32| #[trigger] note_lane_bar(voice_lane(y, v), into) == note_lane_bar(
        voice_lane(x, v),
        into,
    ) by {
        lemma_notes_reloaded(voice_lane(x, v), into);
    }
}

pub proof fn lemma_locate_range(ph: Seq<u32>, into: int, i: int)
    requires
        0 <= i,
    ensures
        0 <= locate(ph, into, i).0,
        locate(ph, into, i).0 == 0 || locate(ph, into, i).0 < ph.len(),
    decreases ph.len() - i,
{
    if i < ph.len() && into >= psum(ph, i + 1) {
        lemma_locate_range(ph, into, i + 1);
    }
}

/// Whether a fill grid is out of earshot in a section: it has a fill bar (so its fill is written),
/// or fewer than 256 phases (so no phase number reaches the fill's 255), or no fill grid has a hit.
pub open spec fn fills_unheard(x: SectionV) -> bool {
    ||| x.fill
    ||| x.phases.len() <= 255
    ||| forall|inst: Inst| !has_hit(#[trigger] lane_of(x, inst).fill)
}

/// The fill lane read back sounds as before wherever a section plays it.
pub proof fn lemma_phase_lane(x: SectionV, inst: Inst, into: u32)
    requires
        section_ok(x),
        fills_unheard(x),
    ensures
        lane_at(lane_of(reloaded_section(x), inst), spec_phase_and_offset(reloaded_section(x), into).0)
            == lane_at(lane_of(x, inst), spec_phase_and_offset(x, into).0),
{
    lemma_section_plays_alike(x);
    let p = spec_phase_and_offset(x, into).0;
    assert(spec_phase_and_offset(reloaded_section(x), into) == spec_phase_and_offset(x, into));
    if p == 255 && !x.fill {
        let (i, off) = locate(x.phases, into as int, 0);
        lemma_locate_range(x.phases, into as int, 0);
        assert(p == (i % 256) as u8);
        if x.phases.len() <= 255 {
            assert(i < 255);
            assert(false);
        }
        assert(!has_hit(lane_of(x, inst).fill));
        let l = lane_of(x, inst);
        assert(lane_ok(l));
        lemma_no_hit_silent(l.fill);
    } else {
        assert(lane_at(lane_of(reloaded_section(x), inst), p) == lane_at(lane_of(x, inst), p));
    }
}

/// Writing a score as tracker-DSL text and reading the text back gives the score again, as far as
/// it plays: the same tempo; the chords as their texts name them (the same chords when all roots
/// are in octave 3); the knobs before the first key starting with `#`, which starts a comment in
/// the text (all of them when none does), and FX words likewise; sections with the same settings
/// otherwise, laid out alike,
/// each bar placed among the phases alike, every drum phase (and fill bar) and every note bar the
/// same, and so the same note and chord on every slot and bar; every drum hit too, unless a section
/// without a fill bar has 256 or more phases and a fill grid with a hit (the reader keeps no fill
/// for a section without a fill bar, while such a section's 256th phase plays its fill grid).
#[verifier::rlimit(50)]
#[verifier::spinoff_prover]
pub proof fn lemma_dsl_round_trip(s: ScoreV)
    requires
        writable(s),
    ensures
        spec_from_str(spec_to_dsl(s)) == SpecParse::Parsed(reloaded(s)),
        score_wf(reloaded(s)),
        reloaded(s).bpm == s.bpm,
        reloaded(s).chords == reread_chords(s.chords),
        reloaded(s).params == kept_knobs(s.params),
        (forall|i: int| 0 <= i < s.chords.len() ==> chord_ok(#[trigger] s.chords[i]))
            ==> reloaded(s).chords == s.chords,
        knobs_ok(s.params) ==> reloaded(s).params == s.params,
        reloaded(s).total_bars == s.total_bars,
        reloaded(s).sections.len() == s.sections.len(),
        forall|i: int| 0 <= i < s.sections.len() ==> same_settings(
            #[trigger] reloaded(s).sections[i],
            s.sections[i],
        ),
        forall|i: int, into: u32| 0 <= i < s.sections.len() ==> #[trigger] spec_phase_and_offset(
            reloaded(s).sections[i],
            into,
        ) == spec_phase_and_offset(s.sections[i], into),
        forall|i: int, inst: Inst, p: u8|
            0 <= i < s.sections.len() && (p != 255 || s.sections[i].fill) ==> #[trigger] lane_at(
                lane_of(reloaded(s).sections[i], inst),
                p,
            ) == lane_at(lane_of(s.sections[i], inst), p),
        forall|i: int, v: Voice, into: u32| 0 <= i < s.sections.len() ==> #[trigger] note_lane_bar(
            voice_lane(reloaded(s).sections[i], v),
            into,
        ) == note_lane_bar(voice_lane(s.sections[i], v), into),
        forall|v: Voice, slot: int| slot >= 0 ==> #[trigger] note_at(reloaded(s), v, slot) == note_at(
            s,
            v,
            slot,
        ),
        forall|b: int| b >= 0 ==> #[trigger] chord_in_bar(reloaded(s), b) == reread_chord(
            chord_in_bar(s, b),
        ),
        (forall|i: int| 0 <= i < s.sections.len() ==> fills_unheard(#[trigger] s.sections[i]))
            ==> forall|inst: Inst, slot: int| slot >= 0 ==> #[trigger] fires(reloaded(s), inst, slot)
            == fires(s, inst, slot),
{
    lemma_dsl_reads_back(s);
    let t = reloaded(s);
    let a = t.sections;
    let secs = s.sections;
    assert forall|i: int| 0 <= i < secs.len() implies same_settings(#[trigger] a[i], secs[i]) by {
        assert(section_ok(secs[i]));
        lemma_section_plays_alike(secs[i]);
    }
    assert forall|k: int| 0 <= k < a.len() implies (#[trigger] a[k]).start_bar == secs[k].start_bar by {
        assert(same_settings(a[k], secs[k]));
    }
    assert forall|k: int| 0 <= k < a.len() implies (#[trigger] a[k]).bars == secs[k].bars by {
        assert(same_settings(a[k], secs[k]));
    }
    // laid out alike
    lemma_bars_before_same(a, secs, a.len() as int);
    assert forall|k: int| 0 <= k < a.len() implies (#[trigger] a[k]).start_bar == bars_before(a, k) by {
        lemma_bars_before_same(a, secs, k);
        assert(secs[k].start_bar == bars_before(secs, k));
    }
    assert(score_wf(t));
    assert forall|i: int, into: u32| 0 <= i < secs.len() implies #[trigger] spec_phase_and_offset(
        a[i],
        into,
    ) == spec_phase_and_offset(secs[i], into) by {
        assert(section_ok(secs[i]));
        lemma_section_plays_alike(secs[i]);
    }
    assert forall|i: int, inst: Inst, p: u8|
        0 <= i < secs.len() && (p != 255 || secs[i].fill) implies #[trigger] lane_at(
            lane_of(a[i], inst),
            p,
        ) == lane_at(lane_of(secs[i], inst), p) by {
        assert(section_ok(secs[i]));
        lemma_section_plays_alike(secs[i]);
    }
    assert forall|i: int, v: Voice, into: u32| 0 <= i < secs.len() implies #[trigger] note_lane_bar(
        voice_lane(a[i], v),
        into,
    ) == note_lane_bar(voice_lane(secs[i], v), into) by {
        assert(section_ok(secs[i]));
        lemma_section_plays_alike(secs[i]);
    }
    assert forall|v: Voice, slot: int| slot >= 0 implies #[trigger] note_at(t, v, slot) == note_at(
        s,
        v,
        slot,
    ) by {
        let bar = slot / 16;
        lemma_sec_index_from_same(a, secs, bar, 0, 0);
        lemma_sec_index(s, bar);
        let k = sec_index(secs, bar);
        assert(section_ok(secs[k]));
        lemma_section_plays_alike(secs[k]);
    }
    assert forall|b: int| b >= 0 implies #[trigger] chord_in_bar(t, b) == reread_chord(
        chord_in_bar(s, b),
    ) by {
        lemma_sec_index_from_same(a, secs, b, 0, 0);
        lemma_sec_index(s, b);
        let k = sec_index(secs, b);
        assert(section_ok(secs[k]));
        lemma_section_plays_alike(secs[k]);
    }
    if forall|i: int| 0 <= i < s.chords.len() ==> chord_ok(#[trigger] s.chords[i]) {
        assert(reread_chords(s.chords) =~= s.chords);
    }
    lemma_kept_knobs(s.params);
    if forall|i: int| 0 <= i < secs.len() ==> fills_unheard(#[trigger] secs[i]) {
        assert forall|inst: Inst, slot: int| slot >= 0 implies #[trigger] fires(t, inst, slot) == fires(
            s,
            inst,
            slot,
        ) by {
            let bar = slot / 16;
            lemma_sec_index_from_same(a, secs, bar, 0, 0);
            lemma_sec_index(s, bar);
            let k = sec_index(secs, bar);
            assert(section_ok(secs[k]));
            assert(fills_unheard(secs[k]));
            lemma_section_plays_alike(secs[k]);
            let into = (bar - secs[k].start_bar) as u32;
            lemma_phase_lane(secs[k], inst, into);
        }
    }
}

} // verus!
