//! Drum lanes: the 16-step hit grids of the four sequenced instruments, their DSL text form
//! (`x...|x...` style) and its reading back.
use vstd::prelude::*;

verus! {

/// The four sequenced drum/voice lanes.
#[derive(Clone, Copy, PartialEq, Eq, Structural, Debug)]
pub enum Inst {
    Kick,
    Snare,
    Hat,
    Stab,
}

/// One instrument's pattern within a section: a 16-step grid per phase, plus the fill-bar grid.
pub struct Lane {
    pub phases: Vec<[bool; 16]>,
    pub fill: [bool; 16],
}

/// The mathematical content of a `Lane`.
#[verifier::ext_equal]
pub struct LaneV {
    pub phases: Seq<Seq<bool>>,
    pub fill: Seq<bool>,
}

impl View for Lane {
    type V = LaneV;

    open spec fn view(&self) -> LaneV {
        LaneV { phases: self.phases@.map_values(|a: [bool; 16]| a@), fill: self.fill@ }
    }
}

/// Sixteen rests.
pub open spec fn silent_bar() -> Seq<bool> {
    Seq::new(16, |i: int| false)
}

/// The grid of a lane for `phase` (255 = the fill bar); a phase the lane does not define is silent.
pub open spec fn lane_at(l: LaneV, phase: u8) -> Seq<bool> {
    if phase == 255 {
        l.fill
    } else if (phase as int) < l.phases.len() {
        l.phases[phase as int]
    } else {
        silent_bar()
    }
}

/// Whether a grid has at least one hit.
pub open spec fn has_hit(p: Seq<bool>) -> bool {
    exists|i: int| 0 <= i < p.len() && p[i]
}

pub fn silent_grid() -> (r: [bool; 16])
    ensures
        r@ == silent_bar(),
{
    let r = [false; 16];
    assert(r@ =~= silent_bar());
    r
}

impl Lane {
    /// A lane with no phases and a silent fill.
    pub fn empty() -> (r: Lane)
        ensures
            r@.phases.len() == 0,
            r@.fill == silent_bar(),
    {
        Lane { phases: Vec::new(), fill: silent_grid() }
    }

    /// the grid for `phase` (255 = fill). An undefined phase is **silent** — lanes only carry the
    /// phases that have hits, so "didn't write a pattern" means "doesn't play".
    pub fn at(&self, phase: u8) -> (r: [bool; 16])
        ensures
            r@ == lane_at(self@, phase),
    {
        if phase == 255 {
            self.fill
        } else if (phase as usize) < self.phases.len() {
            self.phases[phase as usize]
        } else {
            silent_grid()
        }
    }

    /// Whether `p` has a hit.
    pub fn any(&self, p: &[bool; 16]) -> (r: bool)
        ensures
            r == has_hit(p@),
    {
        grid_any(p)
    }
}

impl Default for Lane {
    fn default() -> (r: Lane)
        ensures
            r@.phases.len() == 0,
            r@.fill == silent_bar(),
    {
        Lane::empty()
    }
}

pub fn grid_any(p: &[bool; 16]) -> (r: bool)
    ensures
        r == has_hit(p@),
{
    let mut i: usize = 0;
    while i < 16
        invariant
            i <= 16,
            forall|k: int| 0 <= k < i ==> !p@[k],
        decreases 16 - i,
    {
        if p[i] {
            return true;
        }
        i += 1;
    }
    false
}

// ---- text form -----------------------------------------------------------------------------------

/// The step marks of a pattern text: `x`/`X` = hit, `.`/`-`/`_` = rest, space / tab / `|` are
/// ignored; any other char makes it unreadable.
pub open spec fn steps(s: Seq<char>) -> Option<Seq<bool>>
    decreases s.len(),
{
    if s.len() == 0 {
        Some(seq![])
    } else {
        let c = s[0];
        if c == ' ' || c == '\t' || c == '|' {
            steps(s.drop_first())
        } else if c == 'x' || c == 'X' || c == '.' || c == '-' || c == '_' {
            match steps(s.drop_first()) {
                Some(r) => Some(seq![c == 'x' || c == 'X'] + r),
                None => None,
            }
        } else {
            None
        }
    }
}

/// A 16-step grid text: readable, and exactly 16 steps.
pub open spec fn spec_parse_pattern(s: Seq<char>) -> Option<Seq<bool>> {
    match steps(s) {
        Some(r) => if r.len() == 16 {
            Some(r)
        } else {
            None
        },
        None => None,
    }
}

pub open spec fn mark(b: bool) -> char {
    if b {
        'x'
    } else {
        '.'
    }
}

/// The first `n` steps of a grid as `pat_str` writes them: `x`/`.`, a space before every 4th.
pub open spec fn pat_prefix(p: Seq<bool>, n: nat) -> Seq<char>
    decreases n,
{
    if n == 0 {
        seq![]
    } else {
        let i = (n - 1) as int;
        let sep: Seq<char> = if i > 0 && i % 4 == 0 {
            seq![' ']
        } else {
            seq![]
        };
        pat_prefix(p, (n - 1) as nat) + sep + seq![mark(p[i])]
    }
}

/// The text of a 16-step grid, e.g. `x... x... x... x...`.
pub open spec fn spec_pat_str(p: Seq<bool>) -> Seq<char> {
    pat_prefix(p, 16)
}

pub proof fn lemma_steps_concat(a: Seq<char>, b: Seq<char>)
    ensures
        steps(a + b) == (match (steps(a), steps(b)) {
            (Some(x), Some(y)) => Some(x + y),
            _ => None,
        }),
    decreases a.len(),
{
    if a.len() == 0 {
        assert(a + b =~= b);
        if let Some(y) = steps(b) {
            assert(Seq::<bool>::empty() + y =~= y);
        }
    } else {
        assert((a + b).drop_first() =~= a.drop_first() + b);
        lemma_steps_concat(a.drop_first(), b);
        let c = a[0];
        if c == 'x' || c == 'X' || c == '.' || c == '-' || c == '_' {
            if let (Some(x), Some(y)) = (steps(a.drop_first()), steps(b)) {
                assert(seq![c == 'x' || c == 'X'] + (x + y) =~= (seq![c == 'x' || c == 'X'] + x)
                    + y);
            }
        }
    }
}

pub proof fn lemma_pat_prefix_steps(p: Seq<bool>, n: nat)
    requires
        n <= p.len(),
    ensures
        steps(pat_prefix(p, n)) == Some(p.take(n as int)),
    decreases n,
{
    if n == 0 {
        assert(p.take(0) =~= Seq::<bool>::empty());
    } else {
        let i = (n - 1) as int;
        lemma_pat_prefix_steps(p, (n - 1) as nat);
        let sep: Seq<char> = if i > 0 && i % 4 == 0 {
            seq![' ']
        } else {
            seq![]
        };
        let pre = pat_prefix(p, (n - 1) as nat);
        lemma_steps_concat(pre, sep);
        lemma_steps_concat(pre + sep, seq![mark(p[i])]);
        assert(steps(sep) == Some(Seq::<bool>::empty())) by {
            if i > 0 && i % 4 == 0 {
                assert(sep[0] == ' ');
                assert(sep.drop_first() =~= Seq::<char>::empty());
                assert(steps(sep.drop_first()) == Some(Seq::<bool>::empty()));
            } else {
                assert(sep.len() == 0);
            }
        }
        let one = seq![mark(p[i])];
        assert(one[0] == mark(p[i]));
        assert(one.drop_first() =~= Seq::<char>::empty());
        assert(steps(one.drop_first()) == Some(Seq::<bool>::empty()));
        assert(seq![p[i]] + Seq::<bool>::empty() =~= seq![p[i]]);
        assert(steps(one) == Some(seq![p[i]]));
        assert(p.take(i) + Seq::<bool>::empty() + seq![p[i]] =~= p.take(n as int));
    }
}

/// Reading back what `pat_str` writes gives the same grid.
pub proof fn lemma_pattern_round_trip(p: Seq<bool>)
    requires
        p.len() == 16,
    ensures
        spec_parse_pattern(spec_pat_str(p)) == Some(p),
{
    lemma_pat_prefix_steps(p, 16);
    assert(p.take(16) =~= p);
}

/// The first `n` steps as written: `n` marks with a space before every 4th, so step `i` stands at
/// `i + i / 4` and the spaces exactly at the positions `4, 9, 14, ...`.
pub proof fn lemma_pat_prefix_layout(p: Seq<bool>, n: nat)
    requires
        n <= p.len(),
    ensures
        pat_prefix(p, n).len() == (if n == 0 {
            0
        } else {
            n + (n - 1) / 4
        }),
        forall|j: int|
            0 <= j < pat_prefix(p, n).len() ==> (#[trigger] pat_prefix(p, n)[j] == ' ' <==> j % 5
                == 4),
        forall|i: int| 0 <= i < n ==> #[trigger] pat_prefix(p, n)[i + i / 4] == mark(p[i]),
    decreases n,
{
    if n > 0 {
        let i = (n - 1) as int;
        lemma_pat_prefix_layout(p, (n - 1) as nat);
        let pre = pat_prefix(p, (n - 1) as nat);
        let sep: Seq<char> = if i > 0 && i % 4 == 0 {
            seq![' ']
        } else {
            seq![]
        };
        let cur = pat_prefix(p, n);
        assert(cur == pre + sep + seq![mark(p[i])]);
        let last: int = (pre.len() + sep.len()) as int;
        assert(last == i + i / 4);
        assert(cur[last] == mark(p[i]));
        assert(last % 5 != 4);
        assert forall|j: int| 0 <= j < cur.len() implies (#[trigger] cur[j] == ' ' <==> j % 5
            == 4) by {
            if j < pre.len() {
                assert(cur[j] == pre[j]);
            } else if j < last {
                assert(sep.len() == 1 && cur[j] == ' ');
                assert(j == i + i / 4 - 1);
                assert(j % 5 == 4);
            } else {
                assert(j == last);
            }
        }
        assert forall|k: int| 0 <= k < n implies #[trigger] cur[k + k / 4] == mark(p[k]) by {
            if k < i {
                assert(k + k / 4 < pre.len());
                assert(cur[k + k / 4] == pre[k + k / 4]);
            }
        }
    }
}

/// The layout of a written grid: 19 chars, a space at 4, 9 and 14 and nowhere else, and step `i`
/// (`x` for a hit, `.` for a rest) at `i + i / 4`.
pub proof fn lemma_pat_str_layout(p: Seq<bool>)
    requires
        p.len() == 16,
    ensures
        spec_pat_str(p).len() == 19,
        forall|j: int|
            0 <= j < 19 ==> (#[trigger] spec_pat_str(p)[j] == ' ' <==> (j == 4 || j == 9 || j
                == 14)),
        forall|i: int| 0 <= i < 16 ==> #[trigger] spec_pat_str(p)[i + i / 4] == mark(p[i]),
{
    lemma_pat_prefix_layout(p, 16);
    assert forall|j: int| 0 <= j < 19 implies (#[trigger] spec_pat_str(p)[j] == ' ' <==> (j == 4
        || j == 9 || j == 14)) by {
        assert(pat_prefix(p, 16)[j] == ' ' <==> j % 5 == 4);
    }
    assert forall|i: int| 0 <= i < 16 implies #[trigger] spec_pat_str(p)[i + i / 4] == mark(
        p[i],
    ) by {
        assert(pat_prefix(p, 16)[i + i / 4] == mark(p[i]));
    }
}

/// A step mark: `x`/`X` (hit) or `.`/`-`/`_` (rest).
pub open spec fn is_step(c: char) -> bool {
    c == 'x' || c == 'X' || c == '.' || c == '-' || c == '_'
}

/// A char a pattern text may hold: a step mark, or a space / tab / `|` separator.
pub open spec fn is_pattern_char(c: char) -> bool {
    c == ' ' || c == '\t' || c == '|' || is_step(c)
}

/// Whether a step mark is a hit.
pub open spec fn is_hit(c: char) -> bool {
    c == 'x' || c == 'X'
}

/// Every char of a text is a step mark or a separator.
pub open spec fn all_pattern_chars(s: Seq<char>) -> bool {
    forall|k: int| 0 <= k < s.len() ==> #[trigger] is_pattern_char(s[k])
}

/// The step marks of a text, in order.
pub open spec fn step_marks(s: Seq<char>) -> Seq<char> {
    s.filter(|c: char| is_step(c))
}

/// The steps the marks of a text stand for: a hit for each `x`/`X`, a rest for the others.
pub open spec fn marked_steps(s: Seq<char>) -> Seq<bool> {
    step_marks(s).map_values(|c: char| is_hit(c))
}

/// A text reads as steps exactly when every char is a step mark or a separator; the steps are
/// then its step marks in order, each a hit when it is `x` or `X`.
pub proof fn lemma_steps_are_the_marks(s: Seq<char>)
    ensures
        steps(s) == (if all_pattern_chars(s) {
            Some(marked_steps(s))
        } else {
            None::<Seq<bool>>
        }),
    decreases s.len(),
{
    let f = |c: char| is_step(c);
    let h = |c: char| is_hit(c);
    if s.len() == 0 {
        assert(s.filter(f) =~= Seq::<char>::empty()) by {
            reveal(Seq::filter);
        }
        assert(s.filter(f).map_values(h) =~= Seq::<bool>::empty());
    } else {
        let c = s[0];
        let rest = s.drop_first();
        lemma_steps_are_the_marks(rest);
        assert(s =~= seq![c] + rest);
        Seq::filter_distributes_over_add(seq![c], rest, f);
        let one = seq![c];
        let head = one.filter(f);
        assert(one.len() == 1 && one.last() == c);
        assert(one.drop_last() =~= Seq::<char>::empty());
        assert(head == (if f(c) {
            Seq::<char>::empty().push(c)
        } else {
            Seq::<char>::empty()
        })) by {
            reveal_with_fuel(Seq::filter, 2);
        }
        if is_step(c) {
            assert(head =~= seq![c]);
        } else {
            assert(head =~= Seq::<char>::empty());
        }
        let all_s = all_pattern_chars(s);
        let all_r = all_pattern_chars(rest);
        assert(all_s <==> is_pattern_char(c) && all_r) by {
            if all_s {
                assert forall|k: int| 0 <= k < rest.len() implies #[trigger] is_pattern_char(
                    rest[k],
                ) by {
                    assert(rest[k] == s[k + 1]);
                }
                assert(is_pattern_char(s[0]));
            }
            if is_pattern_char(c) && all_r {
                assert forall|k: int| 0 <= k < s.len() implies #[trigger] is_pattern_char(s[k]) by {
                    if k > 0 {
                        assert(s[k] == rest[k - 1]);
                    }
                }
            }
        }
        if all_s {
            let tail = rest.filter(f).map_values(h);
            if is_step(c) {
                assert((seq![c] + rest.filter(f)).map_values(h) =~= seq![is_hit(c)] + tail);
            } else {
                assert((Seq::<char>::empty() + rest.filter(f)).map_values(h) =~= tail);
            }
        }
    }
}

/// A grid text reads as the grid `q` exactly when every char is a step mark or a separator,
/// there are exactly 16 step marks, and step `i` of `q` is a hit just when the `i`-th mark is
/// `x` or `X`.
pub proof fn lemma_parse_pattern_reads_the_marks(s: Seq<char>)
    ensures
        spec_parse_pattern(s) == (if all_pattern_chars(s) && step_marks(s).len() == 16 {
            Some(marked_steps(s))
        } else {
            None::<Seq<bool>>
        }),
{
    lemma_steps_are_the_marks(s);
}

/// Parse a 16-step grid: `x`/`X` = hit, `.`/`-`/`_` = rest; spaces / `|` group separators ignored.
pub fn parse_pattern(s: &[char]) -> (r: Option<[bool; 16]>)
    ensures
        match r {
            Some(g) => spec_parse_pattern(s@) == Some(g@),
            None => spec_parse_pattern(s@).is_none(),
        },
        r.is_some() <==> all_pattern_chars(s@) && step_marks(s@).len() == 16,
        r matches Some(g) ==> g@ == marked_steps(s@),
{
    proof {
        lemma_parse_pattern_reads_the_marks(s@);
    }
    let mut out = [false; 16];
    let mut n: usize = 0;
    let mut i: usize = 0;
    assert(s@.skip(0) =~= s@);
    while i < s.len()
        invariant
            i <= s@.len(),
            n <= 16,
            steps(s@) == (match steps(s@.skip(i as int)) {
                Some(rest) => Some(out@.take(n as int) + rest),
                None => None,
            }),
        decreases s@.len() - i,
    {
        let c = s[i];
        proof {
            assert(s@.skip(i as int)[0] == c);
            assert(s@.skip(i as int).drop_first() =~= s@.skip(i + 1));
        }
        if c == ' ' || c == '\t' || c == '|' {
        } else if c == 'x' || c == 'X' || c == '.' || c == '-' || c == '_' {
            if n == 16 {
                proof {
                    if let Some(rest) = steps(s@.skip(i + 1)) {
                        assert((out@.take(16) + (seq![c == 'x' || c == 'X'] + rest)).len() > 16);
                    }
                    lemma_parse_pattern_reads_the_marks(s@);
                }
                return None;
            }
            let ghost old_out = out@;
            out[n] = c == 'x' || c == 'X';
            proof {
                assert(out@.take(n as int) =~= old_out.take(n as int));
                if let Some(rest) = steps(s@.skip(i + 1)) {
                    assert(old_out.take(n as int) + (seq![c == 'x' || c == 'X'] + rest)
                        =~= out@.take(n + 1) + rest);
                }
            }
            n += 1;
        } else {
            proof {
                lemma_parse_pattern_reads_the_marks(s@);
            }
            return None;
        }
        i += 1;
    }
    proof {
        assert(s@.skip(i as int) =~= Seq::<char>::empty());
        assert(out@.take(n as int) + Seq::<bool>::empty() =~= out@.take(n as int));
    }
    if n == 16 {
        assert(out@.take(16) =~= out@);
        Some(out)
    } else {
        None
    }
}

/// The text of a 16-step grid, a space between each group of four.
pub fn pat_str(p: &[bool; 16]) -> (r: String)
    ensures
        r@ == spec_pat_str(p@),
        r@.len() == 19,
        forall|j: int| 0 <= j < 19 ==> (#[trigger] r@[j] == ' ' <==> (j == 4 || j == 9 || j == 14)),
        forall|i: int| 0 <= i < 16 ==> #[trigger] r@[i + i / 4] == mark(p@[i]),
{
    proof {
        lemma_pat_str_layout(p@);
    }
    let mut s = String::new();
    let mut i: usize = 0;
    while i < 16
        invariant
            i <= 16,
            s@ == pat_prefix(p@, i as nat),
        decreases 16 - i,
    {
        if i > 0 && i % 4 == 0 {
            crate::numbers::push_char(&mut s, ' ');
        }
        crate::numbers::push_char(&mut s, if p[i] { 'x' } else { '.' });
        proof {
            let sep: Seq<char> = if i > 0 && i % 4 == 0 {
                seq![' ']
            } else {
                seq![]
            };
            assert(pat_prefix(p@, (i + 1) as nat) == pat_prefix(p@, i as nat) + sep + seq![
                mark(p@[i as int]),
            ]);
        }
        i += 1;
    }
    s
}

} // verus!
