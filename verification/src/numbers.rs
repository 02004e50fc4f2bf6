//! The number grammars of the score DSL — unsigned / signed integers as `str::parse` reads them,
//! and decimal literals — plus decimal printing. A decimal literal is kept as its text (`NumLit`):
//! the library checks and carries it, and the float it denotes is computed by its user.
use vstd::prelude::*;
use crate::text::{
    char_from_ascii, chars_of, eq_ic, eq_lit_ic, is_digit, digit_val, lemma_run_len, lower, lower_char,
    run_len, trim, trim_bounds,
};

verus! {

pub open spec fn all_digits(s: Seq<char>) -> bool {
    forall|i: int| 0 <= i < s.len() ==> is_digit(#[trigger] s[i])
}

/// The value of a string of decimal digits.
pub open spec fn digits_val(s: Seq<char>) -> nat
    decreases s.len(),
{
    if s.len() == 0 {
        0
    } else {
        digits_val(s.drop_last()) * 10 + digit_val(s.last()) as nat
    }
}

/// `str::parse` for an unsigned type whose maximum is `max`: an optional `+`, then one or more
/// ASCII digits whose value is at most `max`.
pub open spec fn parse_unsigned(s: Seq<char>, max: nat) -> Option<nat> {
    let d = if s.len() > 0 && s[0] == '+' {
        s.drop_first()
    } else {
        s
    };
    if d.len() > 0 && all_digits(d) && digits_val(d) <= max {
        Some(digits_val(d))
    } else {
        None
    }
}

/// `str::parse::<i32>`: an optional sign, then one or more ASCII digits, in the range of `i32`.
pub open spec fn parse_i32(s: Seq<char>) -> Option<i32> {
    if s.len() > 0 && s[0] == '-' {
        let d = s.drop_first();
        if d.len() > 0 && all_digits(d) && digits_val(d) <= 0x8000_0000 {
            Some((0 - digits_val(d)) as i32)
        } else {
            None
        }
    } else {
        match parse_unsigned(s, 0x7fff_ffff) {
            Some(v) => Some(v as i32),
            None => None,
        }
    }
}

pub open spec fn digit_pred() -> spec_fn(char) -> bool {
    |c: char| is_digit(c)
}

/// An optional exponent: empty, or `e`/`E`, an optional sign, and one or more digits.
pub open spec fn is_exp_or_empty(e: Seq<char>) -> bool {
    e.len() == 0 || (lower(e[0]) == 'e' && {
        let t = e.drop_first();
        let d = if t.len() > 0 && (t[0] == '+' || t[0] == '-') {
            t.drop_first()
        } else {
            t
        };
        d.len() > 0 && all_digits(d)
    })
}

/// `Digit+ | Digit+ '.' Digit* | Digit* '.' Digit+`, then an optional exponent.
pub open spec fn is_decimal(b: Seq<char>) -> bool {
    let m = run_len(b, digit_pred());
    let rest = b.skip(m as int);
    if rest.len() > 0 && rest[0] == '.' {
        let f = run_len(rest.drop_first(), digit_pred());
        (m > 0 || f > 0) && is_exp_or_empty(rest.skip(1 + f as int))
    } else {
        m > 0 && is_exp_or_empty(rest)
    }
}

/// The literals `f32::from_str` accepts (its documented grammar, case-insensitive): an optional
/// sign, then `inf`, `infinity`, `nan` or a decimal number.
pub open spec fn is_float_lit(s: Seq<char>) -> bool {
    let b = if s.len() > 0 && (s[0] == '+' || s[0] == '-') {
        s.drop_first()
    } else {
        s
    };
    eq_ic(b, "inf"@) || eq_ic(b, "infinity"@) || eq_ic(b, "nan"@) || is_decimal(b)
}

/// The leading-dot-tolerant number reading of the DSL: the trimmed text if it is a literal,
/// else the text with a `0` in front if that is one (so `.85` and a bare `.` read), else nothing.
/// The result is the literal text that denotes the value.
pub open spec fn pf(s: Seq<char>) -> Option<Seq<char>> {
    let t = trim(s);
    if is_float_lit(t) {
        Some(t)
    } else if is_float_lit(seq!['0'] + t) {
        Some(seq!['0'] + t)
    } else {
        None
    }
}

/// A decimal literal of the score, kept as written; `f32::from_str` accepts its text.
pub struct NumLit {
    pub text: String,
}

impl View for NumLit {
    type V = Seq<char>;

    open spec fn view(&self) -> Seq<char> {
        self.text@
    }
}

impl NumLit {
    pub open spec fn wf(&self) -> bool {
        is_float_lit(self.text@)
    }

    pub fn clone_lit(&self) -> (r: NumLit)
        ensures
            r@ == self@,
    {
        NumLit { text: self.text.clone() }
    }

    /// A literal from its text, which must be one.
    pub fn from_chars(s: &[char]) -> (r: NumLit)
        requires
            is_float_lit(s@),
        ensures
            r@ == s@,
            r.wf(),
    {
        NumLit { text: string_of(s) }
    }

    /// A literal from a `&str` constant of the library.
    pub fn from_const(s: &str) -> (r: NumLit)
        requires
            is_float_lit(s@),
        ensures
            r@ == s@,
            r.wf(),
    {
        let v = chars_of(s);
        NumLit::from_chars(v.as_slice())
    }
}

/// A plain run of digits is a literal.
pub proof fn lemma_digits_lit(s: Seq<char>)
    requires
        s.len() > 0,
        all_digits(s),
    ensures
        is_float_lit(s),
{
    assert(!(s[0] == '+' || s[0] == '-'));
    lemma_digit_run(s, 0, s.len() as int);
    assert(s.skip(0) =~= s);
    assert(s.skip(s.len() as int).len() == 0);
}

/// A `String` holding the chars of `s`.
pub fn string_of(s: &[char]) -> (r: String)
    ensures
        r@ == s@,
{
    let mut r = String::new();
    let mut i: usize = 0;
    while i < s.len()
        invariant
            i <= s@.len(),
            r@ == s@.take(i as int),
        decreases s@.len() - i,
    {
        push_char(&mut r, s[i]);
        i += 1;
        assert(r@ =~= s@.take(i as int));
    }
    assert(s@.take(s@.len() as int) =~= s@);
    r
}

/// Appends one char to a `String` (`String::push`). The contract claims what std documents: the
/// char is added at the end, the chars before it stay.
#[verifier::external_body]
pub(crate) fn push_char(s: &mut String, c: char)
    ensures
        final(s)@ == old(s)@.push(c),
{
    s.push(c);
}

pub proof fn lemma_digits_val_push(s: Seq<char>, c: char)
    requires
        is_digit(c),
    ensures
        digits_val(s.push(c)) == digits_val(s) * 10 + digit_val(c),
{
    assert(s.push(c).drop_last() =~= s);
}

/// Parses `s[from..]` as digits: `None` if some char is not a digit or the value exceeds `max`.
fn digits_upto(s: &[char], from: usize, max: u64) -> (r: Option<u64>)
    requires
        from <= s@.len(),
    ensures
        ({
            let d = s@.skip(from as int);
            match r {
                Some(v) => all_digits(d) && digits_val(d) <= max && v == digits_val(d),
                None => !(all_digits(d) && digits_val(d) <= max),
            }
        }),
{
    let mut v: u64 = 0;
    let mut over = false;
    let mut i = from;
    assert(s@.subrange(from as int, from as int) =~= Seq::<char>::empty());
    while i < s.len()
        invariant
            from <= i <= s@.len(),
            all_digits(s@.subrange(from as int, i as int)),
            !over ==> v == digits_val(s@.subrange(from as int, i as int)) && v <= max,
            over ==> digits_val(s@.subrange(from as int, i as int)) > max,
        decreases s@.len() - i,
    {
        let c = s[i];
        if !('0' <= c && c <= '9') {
            proof {
                assert(s@.skip(from as int)[i - from] == c);
            }
            return None;
        }
        proof {
            assert(s@.subrange(from as int, i + 1) =~= s@.subrange(from as int, i as int).push(c));
            lemma_digits_val_push(s@.subrange(from as int, i as int), c);
        }
        if !over {
            let dv = (c as u32 - '0' as u32) as u64;
            if dv > max || v > (max - dv) / 10 {
                proof {
                    if dv <= max {
                        assert(v * 10 + dv > max) by (nonlinear_arith)
                            requires
                                v > (max - dv) / 10,
                                dv <= max,
                        ;
                    }
                }
                over = true;
            } else {
                proof {
                    assert(v * 10 + dv <= max) by (nonlinear_arith)
                        requires
                            v <= (max - dv) / 10,
                            dv <= max,
                    ;
                }
                v = v * 10 + dv;
            }
        }
        i += 1;
    }
    proof {
        assert(s@.subrange(from as int, s@.len() as int) =~= s@.skip(from as int));
    }
    if over {
        None
    } else {
        Some(v)
    }
}

/// `str::parse` for an unsigned type with maximum `max`.
pub fn parse_unsigned_exec(s: &[char], max: u64) -> (r: Option<u64>)
    ensures
        match r {
            Some(v) => parse_unsigned(s@, max as nat) == Some(v as nat),
            None => parse_unsigned(s@, max as nat).is_none(),
        },
{
    let from: usize = if s.len() > 0 && s[0] == '+' {
        1
    } else {
        0
    };
    proof {
        assert(s@.skip(0) =~= s@);
        assert(s@.skip(1) =~= s@.drop_first());
    }
    if from == s.len() {
        return None;
    }
    digits_upto(s, from, max)
}

/// `str::parse::<u32>`.
pub fn parse_u32(s: &[char]) -> (r: Option<u32>)
    ensures
        match r {
            Some(v) => parse_unsigned(s@, u32::MAX as nat) == Some(v as nat),
            None => parse_unsigned(s@, u32::MAX as nat).is_none(),
        },
{
    match parse_unsigned_exec(s, u32::MAX as u64) {
        Some(v) => Some(v as u32),
        None => None,
    }
}

/// `str::parse::<usize>`.
pub fn parse_usize(s: &[char]) -> (r: Option<usize>)
    ensures
        match r {
            Some(v) => parse_unsigned(s@, usize::MAX as nat) == Some(v as nat),
            None => parse_unsigned(s@, usize::MAX as nat).is_none(),
        },
{
    match parse_unsigned_exec(s, usize::MAX as u64) {
        Some(v) => Some(v as usize),
        None => None,
    }
}

/// `str::parse::<i32>`.
pub fn parse_i32_exec(s: &[char]) -> (r: Option<i32>)
    ensures
        r == parse_i32(s@),
{
    if s.len() > 0 && s[0] == '-' {
        proof {
            assert(s@.skip(1) =~= s@.drop_first());
        }
        if s.len() == 1 {
            return None;
        }
        match digits_upto(s, 1, 0x8000_0000) {
            Some(v) => Some((0 - (v as i64)) as i32),
            None => None,
        }
    } else {
        match parse_unsigned_exec(s, 0x7fff_ffff) {
            Some(v) => Some(v as i32),
            None => None,
        }
    }
}

pub proof fn lemma_digit_run(s: Seq<char>, i: int, j: int)
    requires
        0 <= i <= j <= s.len(),
        forall|k: int| i <= k < j ==> is_digit(#[trigger] s[k]),
        j == s.len() || !is_digit(s[j]),
    ensures
        run_len(s.skip(i), digit_pred()) == j - i,
{
    assert forall|k: int| i <= k < j implies #[trigger] digit_pred()(s[k]) by {}
    lemma_run_len(s, digit_pred(), i, j);
}

fn digit_end(s: &[char], from: usize) -> (r: usize)
    requires
        from <= s@.len(),
    ensures
        from <= r <= s@.len(),
        forall|k: int| from <= k < r ==> is_digit(#[trigger] s@[k]),
        r == s@.len() || !is_digit(s@[r as int]),
        run_len(s@.skip(from as int), digit_pred()) == r - from,
{
    let mut i = from;
    while i < s.len() && '0' <= s[i] && s[i] <= '9'
        invariant
            from <= i <= s@.len(),
            forall|k: int| from <= k < i ==> is_digit(#[trigger] s@[k]),
        decreases s@.len() - i,
    {
        i += 1;
    }
    proof {
        lemma_digit_run(s@, from as int, i as int);
    }
    i
}

fn exp_or_empty(s: &[char], from: usize) -> (r: bool)
    requires
        from <= s@.len(),
    ensures
        r == is_exp_or_empty(s@.skip(from as int)),
{
    let ghost e = s@.skip(from as int);
    if from == s.len() {
        return true;
    }
    if lower_char(s[from]) != 'e' {
        return false;
    }
    let mut d = from + 1;
    if d < s.len() && (s[d] == '+' || s[d] == '-') {
        d += 1;
    }
    proof {
        let t = e.drop_first();
        assert(t =~= s@.skip(from + 1));
        if from + 1 < s@.len() && (s@[from + 1] == '+' || s@[from + 1] == '-') {
            assert(t.drop_first() =~= s@.skip(d as int));
        }
    }
    if d == s.len() {
        return false;
    }
    let end = digit_end(s, d);
    proof {
        let dd = s@.skip(d as int);
        if end == s@.len() {
            assert forall|i: int| 0 <= i < dd.len() implies is_digit(#[trigger] dd[i]) by {
                assert(dd[i] == s@[d + i]);
            }
        } else {
            assert(dd[end - d] == s@[end as int]);
        }
    }
    end == s.len()
}

/// Whether `s` is a literal `f32::from_str` accepts.
pub fn is_float_lit_exec(s: &[char]) -> (r: bool)
    ensures
        r == is_float_lit(s@),
{
    let from: usize = if s.len() > 0 && (s[0] == '+' || s[0] == '-') {
        1
    } else {
        0
    };
    let b = &s[from..s.len()];
    proof {
        if from == 1 {
            assert(b@ =~= s@.drop_first());
        } else {
            assert(b@ =~= s@);
        }
    }
    if eq_lit_ic(b, "inf") || eq_lit_ic(b, "infinity") || eq_lit_ic(b, "nan") {
        return true;
    }
    let m = digit_end(b, 0);
    proof {
        assert(b@.skip(0) =~= b@);
    }
    let ghost rest = b@.skip(m as int);
    if m < b.len() && b[m] == '.' {
        let f_end = digit_end(b, m + 1);
        proof {
            assert(rest.drop_first() =~= b@.skip(m + 1));
            assert(rest.skip(1 + (f_end - m - 1)) =~= b@.skip(f_end as int));
        }
        let ok = exp_or_empty(b, f_end);
        (m > 0 || f_end > m + 1) && ok
    } else {
        m > 0 && exp_or_empty(b, m)
    }
}

/// The leading-dot-tolerant number reading (`pf`).
pub fn pf_exec(s: &[char]) -> (r: Option<NumLit>)
    ensures
        match r {
            Some(n) => pf(s@) == Some(n@) && n.wf(),
            None => pf(s@).is_none(),
        },
{
    let (a, b) = trim_bounds(s);
    let t = &s[a..b];
    if is_float_lit_exec(t) {
        return Some(NumLit::from_chars(t));
    }
    let mut z: Vec<char> = Vec::new();
    z.push('0');
    let mut i = a;
    while i < b
        invariant
            a <= i <= b <= s@.len(),
            t@ == s@.subrange(a as int, b as int),
            z@ == seq!['0'] + t@.take(i - a),
        decreases b - i,
    {
        z.push(s[i]);
        i += 1;
        assert(z@ =~= seq!['0'] + t@.take(i - a));
    }
    assert(t@.take(b - a) =~= t@);
    if is_float_lit_exec(z.as_slice()) {
        Some(NumLit::from_chars(z.as_slice()))
    } else {
        None
    }
}

// ---- printing -----------------------------------------------------------------------------------

pub open spec fn digit_char(d: nat) -> char {
    (('0' as u32) + d) as char
}

/// Decimal digits of `n` (no sign), as `Display` prints them.
pub open spec fn dec(n: nat) -> Seq<char>
    decreases n,
{
    if n < 10 {
        seq![digit_char(n)]
    } else {
        dec(n / 10).push(digit_char(n % 10))
    }
}

/// `Display` of a signed integer.
pub open spec fn dec_int(v: int) -> Seq<char> {
    if v < 0 {
        seq!['-'] + dec((-v) as nat)
    } else {
        dec(v as nat)
    }
}

/// Appends the decimal digits of `n`.
pub fn push_dec(out: &mut String, n: u64)
    ensures
        final(out)@ == old(out)@ + dec(n as nat),
    decreases n,
{
    if n >= 10 {
        push_dec(out, n / 10);
    }
    let d = (n % 10) as u8;
    let c = char_from_ascii(48 + d);
    push_char(out, c);
    proof {
        assert(c == digit_char((n % 10) as nat));
    }
}

/// Appends `Display` of a signed integer.
pub fn push_int(out: &mut String, v: i64)
    requires
        v > i64::MIN,
    ensures
        final(out)@ == old(out)@ + dec_int(v as int),
{
    if v < 0 {
        push_char(out, '-');
        push_dec(out, (-v) as u64);
        proof {
            assert(final(out)@ =~= old(out)@ + (seq!['-'] + dec((-v) as nat)));
        }
    } else {
        push_dec(out, v as u64);
    }
}

/// Appends a char sequence.
pub fn push_chars(out: &mut String, s: &[char])
    ensures
        final(out)@ == old(out)@ + s@,
{
    let mut i: usize = 0;
    let ghost o = out@;
    while i < s.len()
        invariant
            i <= s@.len(),
            out@ == o + s@.take(i as int),
        decreases s@.len() - i,
    {
        push_char(out, s[i]);
        i += 1;
        assert(out@ =~= o + s@.take(i as int));
    }
    assert(s@.take(s@.len() as int) =~= s@);
}

/// Appends a string.
pub fn push_str(out: &mut String, s: &str)
    ensures
        final(out)@ == old(out)@ + s@,
{
    out.append(s);
}

pub proof fn lemma_dec_digits(n: nat)
    ensures
        dec(n).len() > 0,
        all_digits(dec(n)),
        digits_val(dec(n)) == n,
    decreases n,
{
    if n >= 10 {
        lemma_dec_digits(n / 10);
        let d = dec(n / 10);
        let c = digit_char(n % 10);
        assert(dec(n) == d.push(c));
        assert(dec(n).drop_last() =~= d);
        assert(c as u32 == 48 + n % 10);
        assert(digit_val(c) == n % 10);
        assert((n / 10) * 10 + n % 10 == n);
        assert(dec(n).last() == c);
        assert(digits_val(dec(n)) == digits_val(d) * 10 + digit_val(c) as nat);
        assert(forall|i: int| 0 <= i < d.len() ==> dec(n)[i] == d[i]);
    } else {
        assert(dec(n).drop_last() =~= Seq::<char>::empty());
        assert(digit_char(n) as u32 == 48 + n);
        assert(dec(n).last() == digit_char(n));
        assert(digits_val(dec(n)) == digits_val(dec(n).drop_last()) * 10 + digit_val(digit_char(n)) as nat);
    }
}

/// Reading back the decimal digits of a number gives the number (for a value the type holds).
pub proof fn lemma_parse_dec(n: nat, max: nat)
    requires
        n <= max,
    ensures
        parse_unsigned(dec(n), max) == Some(n),
{
    lemma_dec_digits(n);
    assert(is_digit(dec(n)[0]));
}

/// Reading back `Display` of an `i32` gives it.
pub proof fn lemma_parse_dec_int(v: int)
    requires
        i32::MIN <= v <= i32::MAX,
    ensures
        parse_i32(dec_int(v)) == Some(v as i32),
{
    if v < 0 {
        lemma_dec_digits((-v) as nat);
        let s = dec_int(v);
        assert(s[0] == '-');
        assert(s.drop_first() =~= dec((-v) as nat));
    } else {
        lemma_dec_digits(v as nat);
        assert(is_digit(dec(v as nat)[0]));
    }
}

} // verus!
