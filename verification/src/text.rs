//! Character-level text handling for the score DSL: whitespace, trimming, word splitting, line
//! splitting and the number grammars of the DSL, each as a spec over `Seq<char>` with an exec
//! function that computes exactly that spec.
use vstd::prelude::*;

verus! {

// ---- character classes ------------------------------------------------------------------------

/// Unicode `White_Space` — the set `char::is_whitespace` (and so `trim` / `split_whitespace`) uses.
pub open spec fn is_ws(c: char) -> bool {
    let u = c as u32;
    (0x9 <= u <= 0xd) || u == 0x20 || u == 0x85 || u == 0xa0 || u == 0x1680 || (0x2000 <= u
        <= 0x200a) || u == 0x2028 || u == 0x2029 || u == 0x202f || u == 0x205f || u == 0x3000
}

/// ASCII whitespace as `u8::is_ascii_whitespace` defines it (no vertical tab).
pub open spec fn is_ascii_ws(c: char) -> bool {
    c == ' ' || c == '\t' || c == '\n' || c == '\x0C' || c == '\r'
}

pub open spec fn is_digit(c: char) -> bool {
    '0' <= c <= '9'
}

pub open spec fn digit_val(c: char) -> int {
    (c as u32) - ('0' as u32)
}

/// ASCII lower-casing of one char (non-ASCII-letters are unchanged).
pub open spec fn lower(c: char) -> char {
    if 'A' <= c <= 'Z' {
        ((c as u32) + 32) as char
    } else {
        c
    }
}

/// ASCII upper-casing of one char.
pub open spec fn upper(c: char) -> char {
    if 'a' <= c <= 'z' {
        ((c as u32) - 32) as char
    } else {
        c
    }
}

pub fn is_ws_char(c: char) -> (r: bool)
    ensures
        r == is_ws(c),
{
    let u = c as u32;
    (0x9 <= u && u <= 0xd) || u == 0x20 || u == 0x85 || u == 0xa0 || u == 0x1680 || (0x2000 <= u
        && u <= 0x200a) || u == 0x2028 || u == 0x2029 || u == 0x202f || u == 0x205f || u == 0x3000
}

pub fn is_ascii_ws_char(c: char) -> (r: bool)
    ensures
        r == is_ascii_ws(c),
{
    c == ' ' || c == '\t' || c == '\n' || c == '\x0C' || c == '\r'
}

pub fn lower_char(c: char) -> (r: char)
    ensures
        r == lower(c),
{
    if 'A' <= c && c <= 'Z' {
        let u = (c as u32) + 32;
        proof {
            assert(0x61 <= u <= 0x7a);
        }
        char_from_ascii(u as u8)
    } else {
        c
    }
}

pub fn upper_char(c: char) -> (r: char)
    ensures
        r == upper(c),
{
    if 'a' <= c && c <= 'z' {
        let u = (c as u32) - 32;
        char_from_ascii(u as u8)
    } else {
        c
    }
}

/// The char of an ASCII code.
pub fn char_from_ascii(b: u8) -> (r: char)
    requires
        b < 128,
    ensures
        r == (b as u32) as char,
        r as u32 == b as u32,
{
    b as char
}

// ---- runs, trimming, words ---------------------------------------------------------------------

/// Length of the longest prefix of `s` whose chars all satisfy `p`.
pub open spec fn run_len(s: Seq<char>, p: spec_fn(char) -> bool) -> nat
    decreases s.len(),
{
    if s.len() > 0 && p(s[0]) {
        1 + run_len(s.drop_first(), p)
    } else {
        0
    }
}

pub open spec fn ws_pred() -> spec_fn(char) -> bool {
    |c: char| is_ws(c)
}

pub open spec fn non_ws_pred() -> spec_fn(char) -> bool {
    |c: char| !is_ws(c)
}

pub open spec fn not_char_pred(x: char) -> spec_fn(char) -> bool {
    |c: char| c != x
}

pub proof fn lemma_run_len(s: Seq<char>, p: spec_fn(char) -> bool, i: int, j: int)
    requires
        0 <= i <= j <= s.len(),
        forall|k: int| i <= k < j ==> #[trigger] p(s[k]),
        j == s.len() || !p(s[j]),
    ensures
        run_len(s.skip(i), p) == j - i,
    decreases j - i,
{
    if i < j {
        lemma_run_len(s, p, i + 1, j);
        assert(s.skip(i).drop_first() =~= s.skip(i + 1));
    } else {
        if j < s.len() {
            assert(s.skip(i)[0] == s[j]);
        }
    }
}

pub proof fn lemma_run_len_bound(s: Seq<char>, p: spec_fn(char) -> bool)
    ensures
        run_len(s, p) <= s.len(),
        forall|k: int| 0 <= k < run_len(s, p) ==> #[trigger] p(s[k]),
        run_len(s, p) < s.len() ==> !p(s[run_len(s, p) as int]),
    decreases s.len(),
{
    if s.len() > 0 && p(s[0]) {
        lemma_run_len_bound(s.drop_first(), p);
        assert forall|k: int| 0 <= k < run_len(s, p) implies #[trigger] p(s[k]) by {
            if k > 0 {
                assert(s[k] == s.drop_first()[k - 1]);
            }
        }
    }
}

/// `s` without leading whitespace.
pub open spec fn lstrip(s: Seq<char>) -> Seq<char> {
    s.skip(run_len(s, ws_pred()) as int)
}

/// Number of trailing whitespace chars of `s`.
pub open spec fn trail_ws(s: Seq<char>) -> nat
    decreases s.len(),
{
    if s.len() > 0 && is_ws(s.last()) {
        1 + trail_ws(s.drop_last())
    } else {
        0
    }
}

/// `s` without trailing whitespace.
pub open spec fn rstrip(s: Seq<char>) -> Seq<char> {
    s.take(s.len() - trail_ws(s))
}

/// `str::trim`: both ends stripped of whitespace.
pub open spec fn trim(s: Seq<char>) -> Seq<char> {
    rstrip(lstrip(s))
}

/// `str::split_whitespace`: the maximal runs of non-whitespace chars, in order.
pub open spec fn words(s: Seq<char>) -> Seq<Seq<char>>
    decreases s.len(),
{
    if s.len() == 0 {
        seq![]
    } else if is_ws(s[0]) {
        words(s.drop_first())
    } else {
        let n = run_len(s, non_ws_pred());
        if n == 0 {
            seq![]
        } else {
            proof {
                lemma_run_len_bound(s, non_ws_pred());
            }
            seq![s.take(n as int)] + words(s.skip(n as int))
        }
    }
}

pub proof fn lemma_trail_ws(s: Seq<char>, j: int)
    requires
        0 <= j <= s.len(),
        forall|k: int| j <= k < s.len() ==> is_ws(#[trigger] s[k]),
        j == 0 || !is_ws(s[j - 1]),
    ensures
        trail_ws(s) == s.len() - j,
    decreases s.len(),
{
    if s.len() > j {
        assert(is_ws(s.last()));
        lemma_trail_ws(s.drop_last(), j);
    } else if s.len() > 0 {
        assert(s.last() == s[j - 1]);
    }
}

/// Index of the first non-whitespace char at or after `from` (or `s.len()`).
pub fn skip_ws(s: &[char], from: usize) -> (r: usize)
    requires
        from <= s@.len(),
    ensures
        from <= r <= s@.len(),
        r == from + run_len(s@.skip(from as int), ws_pred()),
        forall|k: int| from <= k < r ==> is_ws(#[trigger] s@[k]),
        r < s@.len() ==> !is_ws(s@[r as int]),
{
    let mut i = from;
    while i < s.len() && is_ws_char(s[i])
        invariant
            from <= i <= s@.len(),
            forall|k: int| from <= k < i ==> is_ws(#[trigger] s@[k]),
        decreases s@.len() - i,
    {
        i += 1;
    }
    proof {
        assert forall|k: int| from <= k < i implies #[trigger] ws_pred()(s@[k]) by {}
        lemma_run_len(s@, ws_pred(), from as int, i as int);
        assert(s@.skip(from as int) == s@.skip(from as int));
    }
    i
}

/// Index of the first whitespace char at or after `from` (or `s.len()`).
pub fn skip_word(s: &[char], from: usize) -> (r: usize)
    requires
        from <= s@.len(),
    ensures
        from <= r <= s@.len(),
        r == from + run_len(s@.skip(from as int), non_ws_pred()),
        forall|k: int| from <= k < r ==> !is_ws(#[trigger] s@[k]),
        r < s@.len() ==> is_ws(s@[r as int]),
{
    let mut i = from;
    while i < s.len() && !is_ws_char(s[i])
        invariant
            from <= i <= s@.len(),
            forall|k: int| from <= k < i ==> !is_ws(#[trigger] s@[k]),
        decreases s@.len() - i,
    {
        i += 1;
    }
    proof {
        assert forall|k: int| from <= k < i implies #[trigger] non_ws_pred()(s@[k]) by {}
        lemma_run_len(s@, non_ws_pred(), from as int, i as int);
    }
    i
}

/// Index of the first `c` at or after `from` (or `s.len()`).
pub fn find_char(s: &[char], from: usize, c: char) -> (r: usize)
    requires
        from <= s@.len(),
    ensures
        from <= r <= s@.len(),
        r == from + run_len(s@.skip(from as int), not_char_pred(c)),
        forall|k: int| from <= k < r ==> #[trigger] s@[k] != c,
        r < s@.len() ==> s@[r as int] == c,
{
    let mut i = from;
    while i < s.len() && s[i] != c
        invariant
            from <= i <= s@.len(),
            forall|k: int| from <= k < i ==> #[trigger] s@[k] != c,
        decreases s@.len() - i,
    {
        i += 1;
    }
    proof {
        assert forall|k: int| from <= k < i implies #[trigger] not_char_pred(c)(s@[k]) by {}
        lemma_run_len(s@, not_char_pred(c), from as int, i as int);
    }
    i
}

/// `str::trim` as a pair of indices: `s[a..b]` is the trimmed text.
pub fn trim_bounds(s: &[char]) -> (r: (usize, usize))
    ensures
        r.0 <= r.1 <= s@.len(),
        s@.subrange(r.0 as int, r.1 as int) == trim(s@),
{
    let a = skip_ws(s, 0);
    let mut b = s.len();
    while b > a && is_ws_char(s[b - 1])
        invariant
            a <= b <= s@.len(),
            forall|k: int| b <= k < s@.len() ==> is_ws(#[trigger] s@[k]),
        decreases b,
    {
        b -= 1;
    }
    proof {
        let l = lstrip(s@);
        assert(s@.skip(0) =~= s@);
        assert(l =~= s@.skip(a as int));
        lemma_trail_ws(l, (b - a) as int);
        assert(trim(s@) =~= s@.subrange(a as int, b as int));
    }
    (a, b)
}

/// Unfolding of `words` at a whitespace position.
pub proof fn lemma_words_ws(s: Seq<char>, i: int)
    requires
        0 <= i < s.len(),
        is_ws(s[i]),
    ensures
        words(s.skip(i)) == words(s.skip(i + 1)),
{
    assert(s.skip(i).drop_first() =~= s.skip(i + 1));
}

/// Unfolding of `words` at the start of a word `s[i..j]`.
pub proof fn lemma_words_word(s: Seq<char>, i: int, j: int)
    requires
        0 <= i < j <= s.len(),
        forall|k: int| i <= k < j ==> !is_ws(#[trigger] s[k]),
        j == s.len() || is_ws(s[j]),
    ensures
        words(s.skip(i)) == seq![s.subrange(i, j)] + words(s.skip(j)),
{
    assert forall|k: int| i <= k < j implies #[trigger] non_ws_pred()(s[k]) by {}
    lemma_run_len(s, non_ws_pred(), i, j);
    assert(s.skip(i).take(j - i) =~= s.subrange(i, j));
    assert(s.skip(i).skip(j - i) =~= s.skip(j));
}

pub proof fn lemma_trail_ws_bound(s: Seq<char>)
    ensures
        trail_ws(s) <= s.len(),
    decreases s.len(),
{
    if s.len() > 0 && is_ws(s.last()) {
        lemma_trail_ws_bound(s.drop_last());
    }
}

/// Trimming a text without whitespace leaves it.
pub proof fn lemma_trim_no_ws(s: Seq<char>)
    requires
        forall|i: int| 0 <= i < s.len() ==> !is_ws(#[trigger] s[i]),
    ensures
        trim(s) == s,
{
    if s.len() > 0 {
        assert(!ws_pred()(s[0]));
    }
    assert(s.skip(0) =~= s);
    assert(lstrip(s) =~= s);
    lemma_trail_ws(s, s.len() as int);
    assert(s.take(s.len() as int) =~= s);
}

/// A non-empty trimmed text starts with a non-whitespace char.
pub proof fn lemma_trim_first(s: Seq<char>)
    requires
        trim(s).len() > 0,
    ensures
        !is_ws(trim(s)[0]),
{
    let l = lstrip(s);
    lemma_trail_ws_bound(l);
    lemma_run_len_bound(s, ws_pred());
    let k = run_len(s, ws_pred());
    assert(l.len() > 0);
    assert(l[0] == s[k as int]);
    assert(!ws_pred()(s[k as int]));
    assert(trim(s)[0] == l[0]);
}

/// A trimmed, non-empty text has a first word.
pub proof fn lemma_words_nonempty(s: Seq<char>)
    requires
        s.len() > 0,
        !is_ws(s[0]),
    ensures
        words(s).len() > 0,
{
    lemma_run_len_bound(s, non_ws_pred());
    assert(non_ws_pred()(s[0]));
}

/// `split_whitespace` as index pairs: word `k` is `s[r[k].0 .. r[k].1]`.
pub fn word_bounds(s: &[char]) -> (r: Vec<(usize, usize)>)
    ensures
        r@.len() == words(s@).len(),
        forall|k: int|
            0 <= k < r@.len() ==> {
                &&& (#[trigger] r@[k]).0 < r@[k].1 <= s@.len()
                &&& s@.subrange(r@[k].0 as int, r@[k].1 as int) == words(s@)[k]
            },
{
    let mut r: Vec<(usize, usize)> = Vec::new();
    let mut i: usize = 0;
    let ghost mut acc: Seq<Seq<char>> = seq![];
    assert(s@.skip(0) =~= s@);
    while i < s.len()
        invariant
            i <= s@.len(),
            words(s@) == acc + words(s@.skip(i as int)),
            r@.len() == acc.len(),
            forall|k: int|
                0 <= k < r@.len() ==> {
                    &&& (#[trigger] r@[k]).0 < r@[k].1 <= i
                    &&& s@.subrange(r@[k].0 as int, r@[k].1 as int) == acc[k]
                },
        decreases s@.len() - i,
    {
        if is_ws_char(s[i]) {
            proof {
                lemma_words_ws(s@, i as int);
            }
            i += 1;
        } else {
            let j = skip_word(s, i);
            proof {
                lemma_words_word(s@, i as int, j as int);
                assert(acc.push(s@.subrange(i as int, j as int)) + words(s@.skip(j as int)) =~= acc
                    + (seq![s@.subrange(i as int, j as int)] + words(s@.skip(j as int))));
                acc = acc.push(s@.subrange(i as int, j as int));
            }
            r.push((i, j));
            i = j;
        }
    }
    proof {
        assert(s@.skip(i as int).len() == 0);
        assert(acc + Seq::<Seq<char>>::empty() =~= acc);
    }
    r
}

/// The views of a list of char vectors.
pub open spec fn vv(v: Seq<Vec<char>>) -> Seq<Seq<char>> {
    v.map_values(|x: Vec<char>| x@)
}

/// `split_whitespace`, each word copied out.
pub fn words_vec(s: &[char]) -> (r: Vec<Vec<char>>)
    ensures
        vv(r@) == words(s@),
{
    let b = word_bounds(s);
    let mut r: Vec<Vec<char>> = Vec::new();
    let mut k: usize = 0;
    while k < b.len()
        invariant
            k <= b@.len(),
            b@.len() == words(s@).len(),
            forall|j: int|
                0 <= j < b@.len() ==> {
                    &&& (#[trigger] b@[j]).0 < b@[j].1 <= s@.len()
                    &&& s@.subrange(b@[j].0 as int, b@[j].1 as int) == words(s@)[j]
                },
            vv(r@) == words(s@).take(k as int),
        decreases b@.len() - k,
    {
        let (x, y) = b[k];
        let w = to_vec(&s[x..y]);
        let ghost old_r = r@;
        let ghost wv = w@;
        r.push(w);
        proof {
            assert(vv(r@) =~= vv(old_r).push(wv));
            assert(words(s@).take(k + 1) =~= words(s@).take(k as int).push(words(s@)[k as int]));
        }
        k += 1;
    }
    assert(words(s@).take(k as int) =~= words(s@));
    r
}

// ---- literal comparison -------------------------------------------------------------------------

/// ASCII-case-insensitive equality (`eq_ignore_ascii_case`).
pub open spec fn eq_ic(a: Seq<char>, b: Seq<char>) -> bool {
    a.len() == b.len() && forall|i: int| 0 <= i < a.len() ==> lower(#[trigger] a[i]) == lower(b[i])
}

/// `s == lit`, char by char.
pub fn eq_lit(s: &[char], lit: &str) -> (r: bool)
    ensures
        r == (s@ == lit@),
{
    let n = lit.unicode_len();
    if s.len() != n {
        return false;
    }
    let mut i: usize = 0;
    while i < n
        invariant
            n == lit@.len(),
            s@.len() == n,
            i <= n,
            forall|k: int| 0 <= k < i ==> s@[k] == lit@[k],
        decreases n - i,
    {
        if s[i] != lit.get_char(i) {
            return false;
        }
        i += 1;
    }
    assert(s@ =~= lit@);
    true
}

/// `a == b`, char by char.
pub fn chars_eq(a: &[char], b: &[char]) -> (r: bool)
    ensures
        r == (a@ == b@),
{
    if a.len() != b.len() {
        return false;
    }
    let mut i: usize = 0;
    while i < a.len()
        invariant
            a@.len() == b@.len(),
            i <= a@.len(),
            forall|k: int| 0 <= k < i ==> a@[k] == b@[k],
        decreases a@.len() - i,
    {
        if a[i] != b[i] {
            return false;
        }
        i += 1;
    }
    assert(a@ =~= b@);
    true
}

/// `s.eq_ignore_ascii_case(lit)`.
pub fn eq_lit_ic(s: &[char], lit: &str) -> (r: bool)
    ensures
        r == eq_ic(s@, lit@),
{
    let n = lit.unicode_len();
    if s.len() != n {
        return false;
    }
    let mut i: usize = 0;
    while i < n
        invariant
            n == lit@.len(),
            s@.len() == n,
            i <= n,
            forall|k: int| 0 <= k < i ==> lower(#[trigger] s@[k]) == lower(lit@[k]),
        decreases n - i,
    {
        if lower_char(s[i]) != lower_char(lit.get_char(i)) {
            return false;
        }
        i += 1;
    }
    true
}

/// The chars of a `&str`.
pub fn chars_of(s: &str) -> (r: Vec<char>)
    ensures
        r@ == s@,
{
    let mut r: Vec<char> = Vec::new();
    for c in it: s.chars()
        invariant
            r@ == it.seq().take(it.index() as int),
            it.seq() == s@,
    {
        r.push(c);
    }
    r
}

/// A `Vec` copy of a slice.
pub fn to_vec(s: &[char]) -> (r: Vec<char>)
    ensures
        r@ == s@,
{
    let mut r: Vec<char> = Vec::new();
    let mut i: usize = 0;
    while i < s.len()
        invariant
            i <= s@.len(),
            r@ == s@.take(i as int),
        decreases s@.len() - i,
    {
        r.push(s[i]);
        i += 1;
        assert(r@ =~= s@.take(i as int));
    }
    assert(s@.take(s@.len() as int) =~= s@);
    r
}

// ---- splitting -----------------------------------------------------------------------------------

pub open spec fn eq_char_pred(x: char) -> spec_fn(char) -> bool {
    |c: char| c == x
}

/// `s.split_once(c)`: the text before the first `c` and the text after it.
pub open spec fn split_once(s: Seq<char>, c: char) -> Option<(Seq<char>, Seq<char>)> {
    let n = run_len(s, not_char_pred(c));
    if n < s.len() {
        Some((s.take(n as int), s.skip(n as int + 1)))
    } else {
        None
    }
}

/// `s.split(c)`: every piece between separators, empty pieces included.
pub open spec fn split_pieces(s: Seq<char>, c: char) -> Seq<Seq<char>>
    decreases s.len(),
{
    let n = run_len(s, not_char_pred(c));
    if n < s.len() {
        seq![s.take(n as int)] + split_pieces(s.skip(n as int + 1), c)
    } else {
        seq![s]
    }
}

/// `s.trim_start_matches(c)`.
pub open spec fn trim_start_char(s: Seq<char>, c: char) -> Seq<char> {
    s.skip(run_len(s, eq_char_pred(c)) as int)
}

/// Where a `# comment` starts in a raw line: the first `#` that begins the line or follows ASCII
/// whitespace (so a mid-token `#`, as in `F#5`, is not a comment). `l.len()` when there is none.
pub open spec fn comment_from(l: Seq<char>, i: int) -> int
    decreases l.len() - i,
{
    if i >= l.len() {
        l.len() as int
    } else if l[i] == '#' && (i == 0 || is_ascii_ws(l[i - 1])) {
        i
    } else {
        comment_from(l, i + 1)
    }
}

pub open spec fn comment_cut(l: Seq<char>) -> int {
    comment_from(l, 0)
}

/// A line without its trailing `\r`, as `str::lines` strips it before a `\n`.
pub open spec fn strip_cr(l: Seq<char>) -> Seq<char> {
    if l.len() > 0 && l.last() == '\r' {
        l.drop_last()
    } else {
        l
    }
}

/// `str::lines`: split at `\n` (a `\r` right before it is dropped); a final line ending is
/// optional.
pub open spec fn lines(t: Seq<char>) -> Seq<Seq<char>>
    decreases t.len(),
{
    if t.len() == 0 {
        seq![]
    } else {
        let n = run_len(t, not_char_pred('\n'));
        if n < t.len() {
            seq![strip_cr(t.take(n as int))] + lines(t.skip(n as int + 1))
        } else {
            seq![t]
        }
    }
}

pub fn split_once_at(s: &[char], c: char) -> (r: Option<usize>)
    ensures
        match r {
            Some(i) => i < s@.len() && split_once(s@, c) == Some(
                (s@.take(i as int), s@.skip(i + 1)),
            ),
            None => split_once(s@, c).is_none(),
        },
{
    let i = find_char(s, 0, c);
    assert(s@.skip(0) =~= s@);
    if i < s.len() {
        Some(i)
    } else {
        None
    }
}

/// Start index of `s.trim_start_matches(c)`.
pub fn trim_start_char_at(s: &[char], c: char) -> (r: usize)
    ensures
        r <= s@.len(),
        s@.skip(r as int) == trim_start_char(s@, c),
{
    let mut i: usize = 0;
    while i < s.len() && s[i] == c
        invariant
            i <= s@.len(),
            forall|k: int| 0 <= k < i ==> #[trigger] s@[k] == c,
        decreases s@.len() - i,
    {
        i += 1;
    }
    proof {
        assert forall|k: int| 0 <= k < i implies #[trigger] eq_char_pred(c)(s@[k]) by {}
        lemma_run_len(s@, eq_char_pred(c), 0, i as int);
        assert(s@.skip(0) =~= s@);
    }
    i
}

pub fn comment_cut_at(l: &[char]) -> (r: usize)
    ensures
        r <= l@.len(),
        r == comment_cut(l@),
{
    let mut i: usize = 0;
    while i < l.len()
        invariant
            i <= l@.len(),
            comment_from(l@, 0) == comment_from(l@, i as int),
        decreases l@.len() - i,
    {
        if l[i] == '#' && (i == 0 || is_ascii_ws_char(l[i - 1])) {
            return i;
        }
        i += 1;
    }
    i
}

pub proof fn lemma_lines_cons(t: Seq<char>, p: int, e: int)
    requires
        0 <= p <= e <= t.len(),
        p < t.len(),
        forall|k: int| p <= k < e ==> #[trigger] t[k] != '\n',
        e == t.len() || t[e] == '\n',
    ensures
        e < t.len() ==> lines(t.skip(p)) == seq![strip_cr(t.subrange(p, e))] + lines(t.skip(e + 1)),
        e == t.len() ==> lines(t.skip(p)) == seq![t.skip(p)],
{
    assert forall|k: int| p <= k < e implies #[trigger] not_char_pred('\n')(t[k]) by {}
    lemma_run_len(t, not_char_pred('\n'), p, e);
    assert(t.skip(p).take(e - p) =~= t.subrange(p, e));
    if e < t.len() {
        assert(t.skip(p).skip(e - p + 1) =~= t.skip(e + 1));
    }
}

pub proof fn lemma_split_pieces_cons(s: Seq<char>, c: char, p: int, e: int)
    requires
        0 <= p <= e <= s.len(),
        forall|k: int| p <= k < e ==> #[trigger] s[k] != c,
        e == s.len() || s[e] == c,
    ensures
        e < s.len() ==> split_pieces(s.skip(p), c) == seq![s.subrange(p, e)] + split_pieces(
            s.skip(e + 1),
            c,
        ),
        e == s.len() ==> split_pieces(s.skip(p), c) == seq![s.skip(p)],
{
    assert forall|k: int| p <= k < e implies #[trigger] not_char_pred(c)(s[k]) by {}
    lemma_run_len(s, not_char_pred(c), p, e);
    assert(s.skip(p).take(e - p) =~= s.subrange(p, e));
    if e < s.len() {
        assert(s.skip(p).skip(e - p + 1) =~= s.skip(e + 1));
    }
}

} // verus!
