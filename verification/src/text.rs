//! Character-level text primitives shared by every line-oriented document
//! editor of the library: whitespace trimming, prefix and substring tests,
//! line splitting with the conventions of `str::lines`, and joining.
//!
//! Text is modelled as `Seq<char>`; executable code works on `Vec<char>` and
//! converts at the public boundary.

use vstd::prelude::*;

verus! {

// ---------------------------------------------------------------------------
// Whitespace
// ---------------------------------------------------------------------------

/// Unicode `White_Space`, the set `char::is_whitespace` tests.
pub open spec fn is_ws(c: char) -> bool {
    let u = c as u32;
    ||| (0x9 <= u && u <= 0xd)
    ||| u == 0x20
    ||| u == 0x85
    ||| u == 0xa0
    ||| u == 0x1680
    ||| (0x2000 <= u && u <= 0x200a)
    ||| u == 0x2028
    ||| u == 0x2029
    ||| u == 0x202f
    ||| u == 0x205f
    ||| u == 0x3000
}

pub fn is_ws_exec(c: char) -> (r: bool)
    ensures
        r == is_ws(c),
{
    let u = c as u32;
    (0x9 <= u && u <= 0xd) || u == 0x20 || u == 0x85 || u == 0xa0 || u == 0x1680 || (0x2000 <= u
        && u <= 0x200a) || u == 0x2028 || u == 0x2029 || u == 0x202f || u == 0x205f || u == 0x3000
}

/// `s` without its leading whitespace.
pub open spec fn trim_start(s: Seq<char>) -> Seq<char>
    decreases s.len(),
{
    if s.len() > 0 && is_ws(s[0]) {
        trim_start(s.drop_first())
    } else {
        s
    }
}

/// `s` without its trailing whitespace.
pub open spec fn trim_end(s: Seq<char>) -> Seq<char>
    decreases s.len(),
{
    if s.len() > 0 && is_ws(s.last()) {
        trim_end(s.drop_last())
    } else {
        s
    }
}

/// `s` without leading and trailing whitespace (`str::trim`).
pub open spec fn trim(s: Seq<char>) -> Seq<char> {
    trim_end(trim_start(s))
}

/// Whether every character of `s` is whitespace.
pub open spec fn all_ws(s: Seq<char>) -> bool {
    forall|i: int| 0 <= i < s.len() ==> is_ws(#[trigger] s[i])
}

pub proof fn lemma_trim_start_skip(s: Seq<char>, i: int)
    requires
        0 <= i <= s.len(),
        all_ws(s.take(i)),
    ensures
        trim_start(s) == trim_start(s.skip(i)),
    decreases i,
{
    if i > 0 {
        assert(is_ws(s.take(i)[0]));
        assert(s[0] == s.take(i)[0]);
        assert(s.drop_first().skip(i - 1) =~= s.skip(i));
        assert forall|k: int| 0 <= k < i - 1 implies is_ws(#[trigger] s.drop_first().take(i - 1)[k]) by {
            assert(s.drop_first().take(i - 1)[k] == s.take(i)[k + 1]);
        }
        lemma_trim_start_skip(s.drop_first(), i - 1);
    } else {
        assert(s.skip(0) =~= s);
    }
}

pub proof fn lemma_trim_end_take(s: Seq<char>, j: int)
    requires
        0 <= j <= s.len(),
        all_ws(s.skip(j)),
    ensures
        trim_end(s) == trim_end(s.take(j)),
    decreases s.len() - j,
{
    if j < s.len() {
        assert(is_ws(s.skip(j)[s.len() - j - 1]));
        assert(s.last() == s.skip(j)[s.len() - j - 1]);
        assert(s.drop_last().take(j) =~= s.take(j));
        assert forall|k: int| 0 <= k < s.len() - 1 - j implies is_ws(
            #[trigger] s.drop_last().skip(j)[k],
        ) by {
            assert(s.drop_last().skip(j)[k] == s.skip(j)[k]);
        }
        lemma_trim_end_take(s.drop_last(), j);
    } else {
        assert(s.take(j) =~= s);
    }
}

pub proof fn lemma_trim_start_stop(s: Seq<char>)
    requires
        s.len() == 0 || !is_ws(s[0]),
    ensures
        trim_start(s) == s,
{
}

pub proof fn lemma_trim_end_stop(s: Seq<char>)
    requires
        s.len() == 0 || !is_ws(s.last()),
    ensures
        trim_end(s) == s,
{
}

pub proof fn lemma_trim_start_len(s: Seq<char>)
    ensures
        trim_start(s).len() <= s.len(),
        s.len() > 0 && is_ws(s[0]) ==> trim_start(s).len() < s.len(),
    decreases s.len(),
{
    if s.len() > 0 && is_ws(s[0]) {
        lemma_trim_start_len(s.drop_first());
    }
}

pub proof fn lemma_trim_end_len(s: Seq<char>)
    ensures
        trim_end(s).len() <= s.len(),
        s.len() > 0 && is_ws(s.last()) ==> trim_end(s).len() < s.len(),
    decreases s.len(),
{
    if s.len() > 0 && is_ws(s.last()) {
        lemma_trim_end_len(s.drop_last());
    }
}

/// A non-empty trimmed text starts and ends with non-whitespace.
pub proof fn lemma_trimmed_edges(s: Seq<char>)
    requires
        trim(s) == s,
        s.len() > 0,
    ensures
        !is_ws(s[0]),
        !is_ws(s.last()),
{
    lemma_trim_start_len(s);
    lemma_trim_end_len(trim_start(s));
    if !is_ws(s[0]) {
        assert(trim_start(s) == s);
        lemma_trim_end_len(s);
    }
}

proof fn lemma_trim_start_head(s: Seq<char>)
    ensures
        trim_start(s).len() > 0 ==> !is_ws(trim_start(s)[0]),
    decreases s.len(),
{
    if s.len() > 0 && is_ws(s[0]) {
        lemma_trim_start_head(s.drop_first());
    }
}

proof fn lemma_trim_end_prefix(s: Seq<char>)
    ensures
        trim_end(s).len() <= s.len(),
        trim_end(s) == s.take(trim_end(s).len() as int),
        trim_end(s).len() > 0 ==> !is_ws(trim_end(s).last()),
    decreases s.len(),
{
    if s.len() > 0 && is_ws(s.last()) {
        lemma_trim_end_prefix(s.drop_last());
        let t = trim_end(s.drop_last());
        assert(s.drop_last().take(t.len() as int) =~= s.take(t.len() as int));
    } else {
        assert(s.take(s.len() as int) =~= s);
    }
}

/// Trimming twice is trimming once.
pub proof fn lemma_trim_idempotent(s: Seq<char>)
    ensures
        trim(trim(s)) == trim(s),
{
    let x = trim_start(s);
    let t = trim_end(x);
    lemma_trim_start_head(s);
    lemma_trim_end_prefix(x);
    if t.len() > 0 {
        assert(t[0] == x[0]);
        lemma_trim_start_stop(t);
        lemma_trim_end_stop(t);
    }
}

/// Index of the first non-whitespace character of `s[lo..hi]` (or `hi`).
pub fn skip_ws_forward(s: &Vec<char>, lo: usize, hi: usize) -> (k: usize)
    requires
        lo <= hi <= s.len(),
    ensures
        lo <= k <= hi,
        all_ws(s@.subrange(lo as int, k as int)),
        k == hi || !is_ws(s@[k as int]),
{
    let mut k = lo;
    while k < hi && is_ws_exec(s[k])
        invariant
            lo <= k <= hi <= s.len(),
            all_ws(s@.subrange(lo as int, k as int)),
        decreases hi - k,
    {
        assert forall|t: int| 0 <= t < k + 1 - lo implies is_ws(
            #[trigger] s@.subrange(lo as int, k + 1)[t],
        ) by {
            if t < k - lo {
                assert(s@.subrange(lo as int, k + 1)[t] == s@.subrange(lo as int, k as int)[t]);
            }
        }
        k = k + 1;
    }
    k
}

/// Index one past the last non-whitespace character of `s[lo..hi]` (or `lo`).
pub fn skip_ws_backward(s: &Vec<char>, lo: usize, hi: usize) -> (k: usize)
    requires
        lo <= hi <= s.len(),
    ensures
        lo <= k <= hi,
        all_ws(s@.subrange(k as int, hi as int)),
        k == lo || !is_ws(s@[k - 1]),
{
    let mut k = hi;
    while k > lo && is_ws_exec(s[k - 1])
        invariant
            lo <= k <= hi <= s.len(),
            all_ws(s@.subrange(k as int, hi as int)),
        decreases k - lo,
    {
        assert forall|t: int| 0 <= t < hi - k + 1 implies is_ws(
            #[trigger] s@.subrange(k - 1, hi as int)[t],
        ) by {
            if t > 0 {
                assert(s@.subrange(k - 1, hi as int)[t] == s@.subrange(k as int, hi as int)[t - 1]);
            }
        }
        k = k - 1;
    }
    k
}

/// The bounds of `trim(s[lo..hi])` inside `s`.
pub fn trim_bounds(s: &Vec<char>, lo: usize, hi: usize) -> (r: (usize, usize))
    requires
        lo <= hi <= s.len(),
    ensures
        lo <= r.0 <= r.1 <= hi,
        s@.subrange(r.0 as int, r.1 as int) == trim(s@.subrange(lo as int, hi as int)),
        s@.subrange(r.0 as int, hi as int) == trim_start(s@.subrange(lo as int, hi as int)),
{
    let ghost w = s@.subrange(lo as int, hi as int);
    let a = skip_ws_forward(s, lo, hi);
    proof {
        assert(w.take(a - lo) =~= s@.subrange(lo as int, a as int));
        lemma_trim_start_skip(w, a - lo);
        assert(w.skip(a - lo) =~= s@.subrange(a as int, hi as int));
        lemma_trim_start_stop(s@.subrange(a as int, hi as int));
    }
    let b = skip_ws_backward(s, a, hi);
    proof {
        let v = s@.subrange(a as int, hi as int);
        assert(v.skip(b - a) =~= s@.subrange(b as int, hi as int));
        lemma_trim_end_take(v, b - a);
        assert(v.take(b - a) =~= s@.subrange(a as int, b as int));
        lemma_trim_end_stop(s@.subrange(a as int, b as int));
    }
    (a, b)
}

/// A copy of `s[lo..hi]`.
pub fn slice_vec(s: &Vec<char>, lo: usize, hi: usize) -> (r: Vec<char>)
    requires
        lo <= hi <= s.len(),
    ensures
        r@ == s@.subrange(lo as int, hi as int),
{
    let mut r: Vec<char> = Vec::new();
    let mut k = lo;
    while k < hi
        invariant
            lo <= k <= hi <= s.len(),
            r@ == s@.subrange(lo as int, k as int),
        decreases hi - k,
    {
        r.push(s[k]);
        assert(r@ =~= s@.subrange(lo as int, k + 1));
        k = k + 1;
    }
    r
}

/// `trim(s)` as a new vector.
pub fn trim_vec(s: &Vec<char>) -> (r: Vec<char>)
    ensures
        r@ == trim(s@),
{
    let (a, b) = trim_bounds(s, 0, s.len());
    proof {
        assert(s@.subrange(0, s.len() as int) =~= s@);
    }
    slice_vec(s, a, b)
}

/// `trim_start(s)` as a new vector.
pub fn trim_start_vec(s: &Vec<char>) -> (r: Vec<char>)
    ensures
        r@ == trim_start(s@),
{
    let (a, _b) = trim_bounds(s, 0, s.len());
    proof {
        assert(s@.subrange(0, s.len() as int) =~= s@);
    }
    slice_vec(s, a, s.len())
}

// ---------------------------------------------------------------------------
// Prefixes, suffixes, substrings
// ---------------------------------------------------------------------------

pub open spec fn starts_with(s: Seq<char>, p: Seq<char>) -> bool {
    p.len() <= s.len() && s.take(p.len() as int) == p
}

pub open spec fn ends_with(s: Seq<char>, p: Seq<char>) -> bool {
    p.len() <= s.len() && s.skip(s.len() - p.len()) == p
}

/// Whether `p` occurs in `s` at position `i`.
pub open spec fn occurs_at(s: Seq<char>, p: Seq<char>, i: int) -> bool {
    0 <= i && i + p.len() <= s.len() && s.subrange(i, i + p.len()) == p
}

/// Whether `p` is a substring of `s` (`str::contains`).
pub open spec fn contains(s: Seq<char>, p: Seq<char>) -> bool {
    exists|i: int| occurs_at(s, p, i)
}

/// Whether `p` occurs in `s` at `i` (executable).
pub fn occurs_at_exec(s: &Vec<char>, p: &Vec<char>, i: usize) -> (r: bool)
    ensures
        r == occurs_at(s@, p@, i as int),
{
    if i > s.len() || p.len() > s.len() - i {
        return false;
    }
    let mut k: usize = 0;
    while k < p.len()
        invariant
            i + p.len() <= s.len(),
            k <= p.len(),
            forall|t: int| 0 <= t < k ==> s@[i + t] == p@[t],
        decreases p.len() - k,
    {
        if s[i + k] != p[k] {
            assert(s@.subrange(i as int, i + p.len())[k as int] != p@[k as int]);
            return false;
        }
        k = k + 1;
    }
    assert(s@.subrange(i as int, i + p.len()) =~= p@);
    true
}

pub fn starts_with_exec(s: &Vec<char>, p: &Vec<char>) -> (r: bool)
    ensures
        r == starts_with(s@, p@),
{
    let r = occurs_at_exec(s, p, 0);
    proof {
        if p@.len() <= s@.len() {
            assert(s@.take(p@.len() as int) =~= s@.subrange(0, p@.len() as int));
        }
    }
    r
}

pub fn ends_with_exec(s: &Vec<char>, p: &Vec<char>) -> (r: bool)
    ensures
        r == ends_with(s@, p@),
{
    if p.len() > s.len() {
        return false;
    }
    let r = occurs_at_exec(s, p, s.len() - p.len());
    proof {
        assert(s@.skip(s@.len() - p@.len()) =~= s@.subrange(
            s@.len() - p@.len(),
            s@.len() as int,
        ));
    }
    r
}

pub fn contains_exec(s: &Vec<char>, p: &Vec<char>) -> (r: bool)
    ensures
        r == contains(s@, p@),
{
    if p.len() > s.len() {
        assert(forall|i: int| !occurs_at(s@, p@, i));
        return false;
    }
    let bound = s.len() - p.len();
    let mut i: usize = 0;
    while i < bound
        invariant
            p.len() <= s.len(),
            bound == s.len() - p.len(),
            i <= bound,
            forall|t: int| 0 <= t < i ==> !occurs_at(s@, p@, t),
        decreases bound - i,
    {
        if occurs_at_exec(s, p, i) {
            return true;
        }
        i = i + 1;
    }
    if occurs_at_exec(s, p, bound) {
        return true;
    }
    assert forall|t: int| !occurs_at(s@, p@, t) by {
        if 0 <= t < i {
        }
    }
    false
}

/// Whether the character `c` occurs in `s`.
pub fn has_char(s: &Vec<char>, c: char) -> (r: bool)
    ensures
        r == s@.contains(c),
{
    let mut i: usize = 0;
    while i < s.len()
        invariant
            i <= s.len(),
            forall|t: int| 0 <= t < i ==> s@[t] != c,
        decreases s.len() - i,
    {
        if s[i] == c {
            return true;
        }
        i = i + 1;
    }
    false
}

/// Repeatedly strips the non-empty prefix `p` off `s` (`str::trim_start_matches`).
pub open spec fn trim_start_matches(s: Seq<char>, p: Seq<char>) -> Seq<char>
    decreases s.len(),
{
    if p.len() > 0 && starts_with(s, p) {
        trim_start_matches(s.skip(p.len() as int), p)
    } else {
        s
    }
}

pub fn trim_start_matches_vec(s: &Vec<char>, p: &Vec<char>) -> (r: Vec<char>)
    ensures
        r@ == trim_start_matches(s@, p@),
{
    let mut i: usize = 0;
    proof {
        assert(s@.skip(0) =~= s@);
    }
    while p.len() > 0 && i <= s.len() && p.len() <= s.len() - i && occurs_at_exec(s, p, i)
        invariant
            i <= s.len(),
            trim_start_matches(s@, p@) == trim_start_matches(s@.skip(i as int), p@),
        decreases s.len() - i,
    {
        proof {
            let t = s@.skip(i as int);
            assert(t.take(p@.len() as int) =~= s@.subrange(i as int, i + p@.len()));
            assert(t.skip(p@.len() as int) =~= s@.skip(i + p@.len()));
        }
        i = i + p.len();
    }
    proof {
        let t = s@.skip(i as int);
        if p@.len() > 0 && p@.len() <= t.len() {
            assert(t.take(p@.len() as int) =~= s@.subrange(i as int, i + p@.len()));
        }
    }
    slice_vec(s, i, s.len())
}

/// `s` with every leading and trailing `c` removed (`str::trim_matches(c)`).
pub open spec fn trim_char(s: Seq<char>, c: char) -> Seq<char> {
    trim_end_char(trim_start_char(s, c), c)
}

pub open spec fn trim_start_char(s: Seq<char>, c: char) -> Seq<char>
    decreases s.len(),
{
    if s.len() > 0 && s[0] == c {
        trim_start_char(s.drop_first(), c)
    } else {
        s
    }
}

pub open spec fn trim_end_char(s: Seq<char>, c: char) -> Seq<char>
    decreases s.len(),
{
    if s.len() > 0 && s.last() == c {
        trim_end_char(s.drop_last(), c)
    } else {
        s
    }
}

pub fn trim_start_char_vec(s: &Vec<char>, c: char) -> (r: Vec<char>)
    ensures
        r@ == trim_start_char(s@, c),
{
    let mut i: usize = 0;
    assert(s@.skip(0) =~= s@);
    while i < s.len() && s[i] == c
        invariant
            i <= s.len(),
            trim_start_char(s@, c) == trim_start_char(s@.skip(i as int), c),
        decreases s.len() - i,
    {
        assert(s@.skip(i as int).drop_first() =~= s@.skip(i + 1));
        i = i + 1;
    }
    slice_vec(s, i, s.len())
}

pub fn trim_end_char_vec(s: &Vec<char>, c: char) -> (r: Vec<char>)
    ensures
        r@ == trim_end_char(s@, c),
{
    let mut j: usize = s.len();
    assert(s@.take(s.len() as int) =~= s@);
    while j > 0 && s[j - 1] == c
        invariant
            j <= s.len(),
            trim_end_char(s@, c) == trim_end_char(s@.take(j as int), c),
        decreases j,
    {
        assert(s@.take(j as int).drop_last() =~= s@.take(j - 1));
        j = j - 1;
    }
    let r = slice_vec(s, 0, j);
    assert(r@ =~= s@.take(j as int));
    r
}

pub fn trim_char_vec(s: &Vec<char>, c: char) -> (r: Vec<char>)
    ensures
        r@ == trim_char(s@, c),
{
    let a = trim_start_char_vec(s, c);
    trim_end_char_vec(&a, c)
}

// ---------------------------------------------------------------------------
// Lines
// ---------------------------------------------------------------------------

/// Index of the first `'\n'` at or after `i` (or `s.len()`).
pub open spec fn next_nl(s: Seq<char>, i: int) -> int
    decreases s.len() - i,
{
    if i >= s.len() {
        s.len() as int
    } else if s[i] == '\n' {
        i
    } else {
        next_nl(s, i + 1)
    }
}

pub proof fn lemma_next_nl_bounds(s: Seq<char>, i: int)
    requires
        0 <= i,
    ensures
        i <= s.len() ==> i <= next_nl(s, i) <= s.len(),
        i > s.len() ==> next_nl(s, i) == s.len(),
        next_nl(s, i) < s.len() ==> s[next_nl(s, i)] == '\n',
        forall|k: int| i <= k < next_nl(s, i) ==> s[k] != '\n',
    decreases s.len() - i,
{
    if i < s.len() && s[i] != '\n' {
        lemma_next_nl_bounds(s, i + 1);
    }
}

/// A line without the `'\r'` of a `"\r\n"` terminator.
pub open spec fn strip_cr(l: Seq<char>) -> Seq<char> {
    if l.len() > 0 && l.last() == '\r' {
        l.drop_last()
    } else {
        l
    }
}

/// The lines of `s[i..]` as `str::lines` yields them: split at `'\n'`, a
/// `"\r\n"` terminator counts as one, and a final terminator adds no line.
pub open spec fn lines_from(s: Seq<char>, i: int) -> Seq<Seq<char>>
    decreases s.len() - i,
{
    if i < 0 || i >= s.len() {
        seq![]
    } else {
        let j = next_nl(s, i);
        proof {
            lemma_next_nl_bounds(s, i);
        }
        if j < i {
            seq![]
        } else if j >= s.len() {
            seq![strip_cr(s.subrange(i, j))]
        } else {
            seq![strip_cr(s.subrange(i, j))] + lines_from(s, j + 1)
        }
    }
}

/// The lines of `s` (`str::lines`).
pub open spec fn lines(s: Seq<char>) -> Seq<Seq<char>> {
    lines_from(s, 0)
}

/// The line that starts at `i` and where it ends.
fn line_at(s: &Vec<char>, i: usize) -> (r: (Vec<char>, usize))
    requires
        i < s.len(),
    ensures
        r.1 == next_nl(s@, i as int),
        r.0@ == strip_cr(s@.subrange(i as int, r.1 as int)),
        i <= r.1 <= s.len(),
{
    proof {
        lemma_next_nl_bounds(s@, i as int);
    }
    let mut j = i;
    while j < s.len() && s[j] != '\n'
        invariant
            i <= j <= s.len(),
            next_nl(s@, i as int) == next_nl(s@, j as int),
        decreases s.len() - j,
    {
        j = j + 1;
    }
    let mut e = j;
    if e > i && s[e - 1] == '\r' {
        e = e - 1;
    }
    let l = slice_vec(s, i, e);
    proof {
        let w = s@.subrange(i as int, j as int);
        if j > i && s@[j - 1] == '\r' {
            assert(w.drop_last() =~= s@.subrange(i as int, e as int));
        } else {
            assert(w =~= s@.subrange(i as int, e as int));
        }
    }
    (l, j)
}

/// Splits `s` into its lines.
pub fn split_lines(s: &Vec<char>) -> (r: Vec<Vec<char>>)
    ensures
        view_lines(r@) == lines(s@),
{
    let mut out: Vec<Vec<char>> = Vec::new();
    let mut i: usize = 0;
    while i < s.len()
        invariant
            i <= s.len() + 1,
            view_lines(out@) + lines_from(s@, i as int) == lines(s@),
        decreases s.len() + 1 - i,
    {
        let (l, j) = line_at(s, i);
        proof {
            lemma_next_nl_bounds(s@, i as int);
            if j < s.len() {
                assert(lines_from(s@, i as int) == seq![l@] + lines_from(s@, j + 1));
            } else {
                assert(lines_from(s@, i as int) == seq![l@]);
                assert(lines_from(s@, j as int) =~= seq![]);
                assert(seq![l@] + lines_from(s@, j as int) =~= seq![l@]);
            }
            assert(view_lines(out@.push(l)) =~= view_lines(out@).push(l@));
            let nx = if j < s.len() { j + 1 } else { j as int };
            assert(view_lines(out@).push(l@) + lines_from(s@, nx) =~= view_lines(out@) + (
            seq![l@] + lines_from(s@, nx)));
        }
        out.push(l);
        if j < s.len() {
            i = j + 1;
        } else {
            i = j;
        }
    }
    proof {
        assert(lines_from(s@, i as int) =~= seq![]);
        assert(view_lines(out@) + seq![] =~= view_lines(out@));
    }
    out
}

/// Lines starting at a line boundary `k` are a suffix of the lines starting
/// at any earlier boundary `i`.
pub proof fn lemma_lines_from_suffix(s: Seq<char>, i: int, k: int) -> (pre: Seq<Seq<char>>)
    requires
        0 <= i <= k <= s.len(),
        i == k || s[k - 1] == '\n',
    ensures
        lines_from(s, i) == pre + lines_from(s, k),
    decreases k - i,
{
    if i == k {
        assert(seq![] + lines_from(s, k) =~= lines_from(s, k));
        seq![]
    } else {
        lemma_next_nl_bounds(s, i);
        let j = next_nl(s, i);
        assert(j <= k - 1) by {
            if j > k - 1 {
                assert(s[k - 1] != '\n');
            }
        }
        let head = strip_cr(s.subrange(i, j));
        assert(lines_from(s, i) == seq![head] + lines_from(s, j + 1));
        let rest = lemma_lines_from_suffix(s, j + 1, k);
        assert(seq![head] + (rest + lines_from(s, k)) =~= (seq![head] + rest) + lines_from(s, k));
        seq![head] + rest
    }
}

/// `next_nl` finds a newline preceded by none.
pub proof fn lemma_next_nl_is(s: Seq<char>, i: int, j: int)
    requires
        0 <= i <= j < s.len(),
        s[j] == '\n',
        forall|m: int| i <= m < j ==> s[m] != '\n',
    ensures
        next_nl(s, i) == j,
{
    lemma_next_nl_bounds(s, i);
    let n = next_nl(s, i);
    if n < j {
        assert(s[n] == '\n');
    } else if n > j {
        assert(s[j] != '\n');
    }
}

/// The lines of `a + "\n" + b + "\n"`, found at position `k` of `s`, are `a`
/// and `b`, for single-line `a` and `b` without a trailing `'\r'`.
pub proof fn lemma_lines_two(s: Seq<char>, k: int, a: Seq<char>, b: Seq<char>)
    requires
        0 <= k <= s.len(),
        s.skip(k) == a + seq!['\n'] + b + seq!['\n'],
        !a.contains('\n'),
        !b.contains('\n'),
        a.len() == 0 || a.last() != '\r',
        b.len() == 0 || b.last() != '\r',
    ensures
        lines_from(s, k) == seq![a, b],
{
    let t = s.skip(k);
    let ja = k + a.len();
    let jb = ja + 1 + b.len();
    assert(t.len() == s.len() - k);
    assert((a + seq!['\n'] + b + seq!['\n']).len() == a.len() + b.len() + 2);
    assert(s.len() == jb + 1);
    assert(t[a.len() as int] == '\n');
    assert(t[(a.len() + 1 + b.len()) as int] == '\n');
    assert forall|m: int| k <= m < ja implies s[m] != '\n' by {
        assert(s[m] == t[m - k]);
        assert(t[m - k] == a[m - k]);
    }
    assert(s[ja] == t[a.len() as int]);
    lemma_next_nl_is(s, k, ja);
    assert forall|m: int| ja + 1 <= m < jb implies s[m] != '\n' by {
        assert(s[m] == t[m - k]);
        assert(t[m - k] == b[m - ja - 1]);
    }
    assert(s[jb] == t[jb - k]);
    lemma_next_nl_is(s, ja + 1, jb);
    assert(s.subrange(k, ja) =~= a) by {
        assert forall|m: int| 0 <= m < a.len() implies s.subrange(k, ja)[m] == a[m] by {
            assert(s[k + m] == t[m]);
        }
    }
    assert(s.subrange(ja + 1, jb) =~= b) by {
        assert forall|m: int| 0 <= m < b.len() implies s.subrange(ja + 1, jb)[m] == b[m] by {
            assert(s[ja + 1 + m] == t[a.len() + 1 + m]);
        }
    }
    assert(lines_from(s, jb + 1) =~= seq![]);
    assert(lines_from(s, ja + 1) =~= seq![b]);
    assert(lines_from(s, k) =~= seq![a] + seq![b]);
}

/// The contents of a vector of lines.
pub open spec fn view_lines(v: Seq<Vec<char>>) -> Seq<Seq<char>> {
    v.map_values(|l: Vec<char>| l@)
}

/// The contents of a vector of strings.
pub open spec fn view_strings(v: Seq<String>) -> Seq<Seq<char>> {
    v.map_values(|l: String| l@)
}

/// `ls` joined with `sep` between consecutive items (`[T]::join`).
pub open spec fn join(ls: Seq<Seq<char>>, sep: Seq<char>) -> Seq<char>
    decreases ls.len(),
{
    if ls.len() == 0 {
        seq![]
    } else if ls.len() == 1 {
        ls[0]
    } else {
        join(ls.drop_last(), sep) + sep + ls.last()
    }
}

/// Appends `t` to `v`.
pub fn append_vec(v: &mut Vec<char>, t: &Vec<char>)
    ensures
        final(v)@ == old(v)@ + t@,
{
    let mut k: usize = 0;
    let ghost v0 = v@;
    while k < t.len()
        invariant
            k <= t.len(),
            v@ == v0 + t@.take(k as int),
        decreases t.len() - k,
    {
        v.push(t[k]);
        assert(v0 + t@.take(k + 1) =~= (v0 + t@.take(k as int)).push(t@[k as int]));
        k = k + 1;
    }
    assert(t@.take(t.len() as int) =~= t@);
}

/// `ls` joined with `sep`.
pub fn join_vec(ls: &Vec<Vec<char>>, sep: &Vec<char>) -> (r: Vec<char>)
    ensures
        r@ == join(view_lines(ls@), sep@),
{
    let mut r: Vec<char> = Vec::new();
    let mut k: usize = 0;
    while k < ls.len()
        invariant
            k <= ls.len(),
            r@ == join(view_lines(ls@).take(k as int), sep@),
        decreases ls.len() - k,
    {
        let ghost before = r@;
        if k > 0 {
            append_vec(&mut r, sep);
        }
        append_vec(&mut r, &ls[k]);
        proof {
            let t = view_lines(ls@).take(k + 1);
            assert(t.drop_last() =~= view_lines(ls@).take(k as int));
            assert(t.last() == ls@[k as int]@);
            if k == 0 {
                assert(r@ =~= ls@[0]@);
            }
        }
        k = k + 1;
    }
    assert(view_lines(ls@).take(ls.len() as int) =~= view_lines(ls@));
    r
}

/// The characters of a string.
pub fn chars_of(s: &str) -> (v: Vec<char>)
    ensures
        v@ == s@,
{
    let mut v: Vec<char> = Vec::new();
    for c in it: s.chars()
        invariant
            v@ == it.seq().take(it.index() as int),
    {
        v.push(c);
    }
    v
}

/// A string holding the characters of `v`. Calls `FromIterator<&char>` for
/// `String`, which collects the characters in order.
#[verifier::external_body]
pub(crate) fn string_of(v: &Vec<char>) -> (s: String)
    ensures
        s@ == v@,
{
    v.iter().collect::<String>()
}

/// UTF-8 encoded length of a character (`char::len_utf8`).
pub open spec fn utf8_len(c: char) -> nat {
    let u = c as u32;
    if u < 0x80 {
        1
    } else if u < 0x800 {
        2
    } else if u < 0x10000 {
        3
    } else {
        4
    }
}

/// UTF-8 encoded length of a character sequence (`str::len`).
pub open spec fn utf8_len_seq(s: Seq<char>) -> nat
    decreases s.len(),
{
    if s.len() == 0 {
        0
    } else {
        utf8_len_seq(s.drop_last()) + utf8_len(s.last())
    }
}

pub fn utf8_len_exec(c: char) -> (r: usize)
    ensures
        r == utf8_len(c),
{
    let u = c as u32;
    if u < 0x80 {
        1
    } else if u < 0x800 {
        2
    } else if u < 0x10000 {
        3
    } else {
        4
    }
}

/// UTF-8 length of `s[lo..hi]`, when it fits a `usize`.
pub fn utf8_len_range(s: &Vec<char>, lo: usize, hi: usize) -> (r: usize)
    requires
        lo <= hi <= s.len(),
        hi - lo < usize::MAX / 4,
    ensures
        r == utf8_len_seq(s@.subrange(lo as int, hi as int)),
{
    let mut r: usize = 0;
    let mut k = lo;
    while k < hi
        invariant
            lo <= k <= hi <= s.len(),
            hi - lo < usize::MAX / 4,
            r == utf8_len_seq(s@.subrange(lo as int, k as int)),
            r <= 4 * (k - lo),
        decreases hi - k,
    {
        let ghost before = s@.subrange(lo as int, k as int);
        assert(s@.subrange(lo as int, k + 1).drop_last() =~= before);
        r = r + utf8_len_exec(s[k]);
        k = k + 1;
    }
    r
}


/// Whether two character vectors hold the same text.
pub fn vec_eq(a: &Vec<char>, b: &Vec<char>) -> (r: bool)
    ensures
        r == (a@ == b@),
{
    if a.len() != b.len() {
        return false;
    }
    let mut k: usize = 0;
    while k < a.len()
        invariant
            a.len() == b.len(),
            k <= a.len(),
            forall|t: int| 0 <= t < k ==> a@[t] == b@[t],
        decreases a.len() - k,
    {
        if a[k] != b[k] {
            return false;
        }
        k = k + 1;
    }
    assert(a@ =~= b@);
    true
}

/// `a` followed by `b`, as a new vector.
pub fn concat_vec(a: &Vec<char>, b: &Vec<char>) -> (r: Vec<char>)
    ensures
        r@ == a@ + b@,
{
    let mut r = slice_vec(a, 0, a.len());
    assert(a@.subrange(0, a@.len() as int) =~= a@);
    append_vec(&mut r, b);
    r
}

/// A copy of `a`.
pub fn copy_vec(a: &Vec<char>) -> (r: Vec<char>)
    ensures
        r@ == a@,
{
    let r = slice_vec(a, 0, a.len());
    assert(a@.subrange(0, a@.len() as int) =~= a@);
    r
}

/// The decimal digit character for `d < 10`.
pub open spec fn digit_char(d: int) -> char {
    if d == 0 {
        '0'
    } else if d == 1 {
        '1'
    } else if d == 2 {
        '2'
    } else if d == 3 {
        '3'
    } else if d == 4 {
        '4'
    } else if d == 5 {
        '5'
    } else if d == 6 {
        '6'
    } else if d == 7 {
        '7'
    } else if d == 8 {
        '8'
    } else {
        '9'
    }
}

/// The decimal rendering of `n` (`n.to_string()` for unsigned integers).
pub open spec fn dec(n: nat) -> Seq<char>
    decreases n,
{
    if n < 10 {
        seq![digit_char(n as int)]
    } else {
        dec(n / 10).push(digit_char((n % 10) as int))
    }
}

fn digit_exec(d: u64) -> (c: char)
    requires
        d < 10,
    ensures
        c == digit_char(d as int),
{
    if d == 0 {
        '0'
    } else if d == 1 {
        '1'
    } else if d == 2 {
        '2'
    } else if d == 3 {
        '3'
    } else if d == 4 {
        '4'
    } else if d == 5 {
        '5'
    } else if d == 6 {
        '6'
    } else if d == 7 {
        '7'
    } else if d == 8 {
        '8'
    } else {
        '9'
    }
}

/// The decimal rendering of `n`.
pub fn dec_vec(n: u64) -> (r: Vec<char>)
    ensures
        r@ == dec(n as nat),
    decreases n,
{
    if n < 10 {
        let mut v: Vec<char> = Vec::new();
        v.push(digit_exec(n));
        assert(v@ =~= seq![digit_char(n as int)]);
        v
    } else {
        let mut v = dec_vec(n / 10);
        v.push(digit_exec(n % 10));
        v
    }
}

/// A run of `n` spaces.
pub open spec fn spaces(n: nat) -> Seq<char> {
    Seq::new(n, |i: int| ' ')
}

/// Whether `c` is an ASCII letter or digit.
pub open spec fn is_ascii_alnum(c: char) -> bool {
    let u = c as u32;
    (0x30 <= u && u <= 0x39) || (0x41 <= u && u <= 0x5a) || (0x61 <= u && u <= 0x7a)
}

pub fn is_ascii_alnum_exec(c: char) -> (r: bool)
    ensures
        r == is_ascii_alnum(c),
{
    let u = c as u32;
    (0x30 <= u && u <= 0x39) || (0x41 <= u && u <= 0x5a) || (0x61 <= u && u <= 0x7a)
}

/// The result of `char::is_alphanumeric`: whether `c` has the Unicode
/// `Alphabetic` or a numeric general category.
pub uninterp spec fn alphanumeric(c: char) -> bool;

/// Calls `char::is_alphanumeric`. Its result is named [`alphanumeric`]; std
/// documents that on ASCII it agrees with `is_ascii_alphanumeric`, and the
/// C1 control characters U+0080 to U+009F (general category `Cc`) are
/// neither alphabetic nor numeric. The Unicode tables that decide the other
/// characters are left unstated.
#[verifier::external_body]
pub(crate) fn is_alphanumeric(c: char) -> (r: bool)
    ensures
        r == alphanumeric(c),
        (c as u32) < 0x80 ==> (r == is_ascii_alnum(c)),
        0x80 <= (c as u32) <= 0x9f ==> !r,
{
    c.is_alphanumeric()
}

/// The result of `str::to_lowercase`: the full Unicode lowercase mapping of
/// every character.
pub uninterp spec fn lowercase(s: Seq<char>) -> Seq<char>;

/// Calls `str::to_lowercase`; its result is named [`lowercase`]. The
/// Unicode case tables are left unstated.
#[verifier::external_body]
pub(crate) fn to_lowercase(s: &str) -> (r: String)
    ensures
        r@ == lowercase(s@),
{
    s.to_lowercase()
}


/// Whether `p` is a substring of the string `s` (`str::contains`).
pub fn str_contains(s: &str, p: &str) -> (r: bool)
    ensures
        r == contains(s@, p@),
{
    contains_exec(&chars_of(s), &chars_of(p))
}

/// Whether the string `s` starts with `p` (`str::starts_with`).
pub fn str_starts_with(s: &str, p: &str) -> (r: bool)
    ensures
        r == starts_with(s@, p@),
{
    starts_with_exec(&chars_of(s), &chars_of(p))
}

/// `a` followed by `b`, as a new string.
pub fn cat(a: &str, b: &str) -> (r: String)
    ensures
        r@ == a@ + b@,
{
    string_of(&concat_vec(&chars_of(a), &chars_of(b)))
}

/// A copy of a list of strings.
pub fn copy_strings(v: &Vec<String>) -> (r: Vec<String>)
    ensures
        view_strings(r@) == view_strings(v@),
{
    let mut r: Vec<String> = Vec::new();
    let mut k: usize = 0;
    while k < v.len()
        invariant
            k <= v.len(),
            view_strings(r@) == view_strings(v@).take(k as int),
        decreases v.len() - k,
    {
        let x = v[k].clone();
        proof {
            assert(view_strings(r@.push(x)) =~= view_strings(r@).push(x@));
            assert(view_strings(v@).take(k + 1) =~= view_strings(v@).take(k as int).push(
                v@[k as int]@,
            ));
        }
        r.push(x);
        k = k + 1;
    }
    assert(view_strings(v@).take(v.len() as int) =~= view_strings(v@));
    r
}


// ---------------------------------------------------------------------------
// Lists of lines
// ---------------------------------------------------------------------------

/// Whether a line holds something besides whitespace.
pub open spec fn is_nonblank(l: Seq<char>) -> bool {
    trim(l).len() > 0
}

/// The lines of `ls` that are not blank, in order.
pub open spec fn nonblank(ls: Seq<Seq<char>>) -> Seq<Seq<char>>
    decreases ls.len(),
{
    if ls.len() == 0 {
        seq![]
    } else if is_nonblank(ls.last()) {
        nonblank(ls.drop_last()).push(ls.last())
    } else {
        nonblank(ls.drop_last())
    }
}

/// The first `n` items of `s` (all of them when there are fewer).
pub open spec fn first_at_most<A>(s: Seq<A>, n: nat) -> Seq<A> {
    if s.len() <= n {
        s
    } else {
        s.take(n as int)
    }
}

/// The last `n` items of `s` (all of them when there are fewer).
pub open spec fn last_at_most<A>(s: Seq<A>, n: nat) -> Seq<A> {
    if s.len() <= n {
        s
    } else {
        s.skip(s.len() - n)
    }
}

/// The strings of `v` that are not blank, in order.
pub fn nonblank_strings(v: &Vec<String>) -> (r: Vec<String>)
    ensures
        view_strings(r@) == nonblank(view_strings(v@)),
{
    let mut r: Vec<String> = Vec::new();
    let mut k: usize = 0;
    while k < v.len()
        invariant
            k <= v.len(),
            view_strings(r@) == nonblank(view_strings(v@).take(k as int)),
        decreases v.len() - k,
    {
        proof {
            assert(view_strings(v@).take(k + 1).drop_last() =~= view_strings(v@).take(k as int));
            assert(view_strings(v@).take(k + 1).last() == v@[k as int]@);
        }
        let t = trim_vec(&chars_of(v[k].as_str()));
        if t.len() > 0 {
            let x = v[k].clone();
            proof {
                assert(view_strings(r@.push(x)) =~= view_strings(r@).push(x@));
            }
            r.push(x);
        }
        k = k + 1;
    }
    assert(view_strings(v@).take(v.len() as int) =~= view_strings(v@));
    r
}

/// The first `n` strings of `v`, or all of them.
pub fn first_strings(v: &Vec<String>, n: usize) -> (r: Vec<String>)
    ensures
        view_strings(r@) == first_at_most(view_strings(v@), n as nat),
{
    let mut r: Vec<String> = Vec::new();
    let mut k: usize = 0;
    while k < v.len() && k < n
        invariant
            k <= v.len(),
            k <= n,
            view_strings(r@) == view_strings(v@).take(k as int),
        decreases v.len() - k,
    {
        let x = v[k].clone();
        proof {
            assert(view_strings(r@.push(x)) =~= view_strings(r@).push(x@));
            assert(view_strings(v@).take(k + 1) =~= view_strings(v@).take(k as int).push(
                v@[k as int]@,
            ));
        }
        r.push(x);
        k = k + 1;
    }
    assert(v.len() <= n ==> view_strings(v@).take(v.len() as int) =~= view_strings(v@));
    r
}

/// The last `n` strings of `v`, or all of them.
pub fn last_strings(v: &Vec<String>, n: usize) -> (r: Vec<String>)
    ensures
        view_strings(r@) == last_at_most(view_strings(v@), n as nat),
{
    let start: usize = if v.len() <= n {
        0
    } else {
        v.len() - n
    };
    let mut r: Vec<String> = Vec::new();
    let mut k: usize = start;
    while k < v.len()
        invariant
            start <= k <= v.len(),
            start == (if v.len() <= n { 0 } else { v.len() - n }),
            view_strings(r@) == view_strings(v@).subrange(start as int, k as int),
        decreases v.len() - k,
    {
        let x = v[k].clone();
        proof {
            assert(view_strings(r@.push(x)) =~= view_strings(r@).push(x@));
            assert(view_strings(v@).subrange(start as int, k + 1) =~= view_strings(v@).subrange(
                start as int,
                k as int,
            ).push(v@[k as int]@));
        }
        r.push(x);
        k = k + 1;
    }
    proof {
        if v.len() <= n {
            assert(view_strings(v@).subrange(0, v.len() as int) =~= view_strings(v@));
        } else {
            assert(view_strings(v@).subrange(start as int, v.len() as int) =~= view_strings(
                v@,
            ).skip(v.len() - n));
        }
    }
    r
}

/// The strings of `v` joined with `sep` between consecutive items.
pub fn join_strings(v: &Vec<String>, sep: &str) -> (r: String)
    ensures
        r@ == join(view_strings(v@), sep@),
{
    let mut ls: Vec<Vec<char>> = Vec::new();
    let mut k: usize = 0;
    while k < v.len()
        invariant
            k <= v.len(),
            view_lines(ls@) == view_strings(v@).take(k as int),
        decreases v.len() - k,
    {
        let x = chars_of(v[k].as_str());
        proof {
            assert(view_lines(ls@.push(x)) =~= view_lines(ls@).push(x@));
            assert(view_strings(v@).take(k + 1) =~= view_strings(v@).take(k as int).push(
                v@[k as int]@,
            ));
        }
        ls.push(x);
        k = k + 1;
    }
    assert(view_strings(v@).take(v.len() as int) =~= view_strings(v@));
    string_of(&join_vec(&ls, &chars_of(sep)))
}

/// `s` without trailing `\r` and `\n` characters.
pub open spec fn trim_end_crlf(s: Seq<char>) -> Seq<char>
    decreases s.len(),
{
    if s.len() > 0 && (s.last() == '\r' || s.last() == '\n') {
        trim_end_crlf(s.drop_last())
    } else {
        s
    }
}

/// `s` without trailing `\r` and `\n` characters.
pub fn trim_end_crlf_str(s: &str) -> (r: String)
    ensures
        r@ == trim_end_crlf(s@),
{
    let c = chars_of(s);
    let mut e = c.len();
    assert(c@.take(c.len() as int) =~= c@);
    while e > 0 && (c[e - 1] == '\r' || c[e - 1] == '\n')
        invariant
            e <= c.len(),
            trim_end_crlf(c@) == trim_end_crlf(c@.take(e as int)),
        decreases e,
    {
        assert(c@.take(e as int).drop_last() =~= c@.take(e - 1));
        e = e - 1;
    }
    assert(c@.take(e as int) =~= c@.subrange(0, e as int));
    string_of(&slice_vec(&c, 0, e))
}


// ---------------------------------------------------------------------------
// Reading back written lines
// ---------------------------------------------------------------------------

/// Each line followed by `'\n'`.
pub open spec fn unlines(ls: Seq<Seq<char>>) -> Seq<char>
    decreases ls.len(),
{
    if ls.len() == 0 {
        seq![]
    } else {
        ls[0] + seq!['\n'] + unlines(ls.drop_first())
    }
}

/// No line holds a line break.
pub open spec fn single_lines(ls: Seq<Seq<char>>) -> bool {
    forall|i: int| 0 <= i < ls.len() ==> !(#[trigger] ls[i]).contains('\n')
}

pub proof fn lemma_unlines_push(ls: Seq<Seq<char>>, l: Seq<char>)
    ensures
        unlines(ls.push(l)) == unlines(ls) + l + seq!['\n'],
    decreases ls.len(),
{
    if ls.len() == 0 {
        assert(ls.push(l).drop_first() =~= Seq::<Seq<char>>::empty());
        assert(unlines(Seq::<Seq<char>>::empty()) == Seq::<char>::empty());
        assert(ls.push(l)[0] == l);
        assert(unlines(ls.push(l)) =~= l + seq!['\n']);
        assert(unlines(ls) + l + seq!['\n'] =~= l + seq!['\n']);
    } else {
        assert(ls.push(l).drop_first() =~= ls.drop_first().push(l));
        lemma_unlines_push(ls.drop_first(), l);
        assert(unlines(ls.push(l)) =~= unlines(ls) + l + seq!['\n']);
    }
}

/// Joining non-empty `ls` with `"\n"` and ending with `"\n"` terminates
/// every line.
pub proof fn lemma_join_nl(ls: Seq<Seq<char>>)
    requires
        ls.len() > 0,
    ensures
        join(ls, seq!['\n']) + seq!['\n'] == unlines(ls),
    decreases ls.len(),
{
    if ls.len() == 1 {
        assert(ls.drop_first() =~= Seq::<Seq<char>>::empty());
        assert(unlines(Seq::<Seq<char>>::empty()) == Seq::<char>::empty());
        assert(unlines(ls) =~= ls[0] + seq!['\n']);
    } else {
        lemma_join_nl(ls.drop_last());
        lemma_unlines_push(ls.drop_last(), ls.last());
        assert(ls.drop_last().push(ls.last()) =~= ls);
        assert(join(ls, seq!['\n']) + seq!['\n'] =~= join(ls.drop_last(), seq!['\n']) + seq![
            '\n',
        ] + ls.last() + seq!['\n']);
    }
}

/// Terminated single lines read back as themselves, each without one
/// trailing `'\r'`.
pub proof fn lemma_lines_unlines(s: Seq<char>, k: int, ls: Seq<Seq<char>>)
    requires
        0 <= k <= s.len(),
        s.skip(k) == unlines(ls),
        single_lines(ls),
    ensures
        lines_from(s, k) == ls.map_values(|l: Seq<char>| strip_cr(l)),
    decreases ls.len(),
{
    if ls.len() == 0 {
        assert(s.skip(k).len() == 0);
        assert(ls.map_values(|l: Seq<char>| strip_cr(l)) =~= Seq::<Seq<char>>::empty());
    } else {
        let a = ls[0];
        let rest = ls.drop_first();
        let t = s.skip(k);
        let j = k + a.len();
        assert(t =~= a + seq!['\n'] + unlines(rest));
        assert(!a.contains('\n'));
        assert forall|m: int| k <= m < j implies s[m] != '\n' by {
            assert(s[m] == t[m - k]);
            assert(t[m - k] == a[m - k]);
            if s[m] == '\n' {
                assert(a.contains('\n'));
            }
        }
        assert(s[j] == t[a.len() as int]);
        lemma_next_nl_is(s, k, j);
        assert(s.subrange(k, j) =~= a) by {
            assert forall|m: int| 0 <= m < a.len() implies s.subrange(k, j)[m] == a[m] by {
                assert(s[k + m] == t[m]);
            }
        }
        assert(s.skip(j + 1) =~= unlines(rest)) by {
            assert forall|m: int| 0 <= m < s.skip(j + 1).len() implies s.skip(j + 1)[m]
                == unlines(rest)[m] by {
                assert(s[j + 1 + m] == t[a.len() + 1 + m]);
            }
        }
        assert forall|i: int| 0 <= i < rest.len() implies !(#[trigger] rest[i]).contains('\n') by {
            assert(rest[i] == ls[i + 1]);
        }
        lemma_lines_unlines(s, j + 1, rest);
        assert(ls.map_values(|l: Seq<char>| strip_cr(l)) =~= seq![strip_cr(a)] + rest.map_values(
            |l: Seq<char>| strip_cr(l),
        ));
        if j + 1 >= s.len() {
            assert(rest.len() == 0) by {
                if rest.len() > 0 {
                    assert(unlines(rest).len() >= 1);
                }
            }
            assert(rest.map_values(|l: Seq<char>| strip_cr(l)) =~= Seq::<Seq<char>>::empty());
        }
    }
}

/// The lines of a text written as non-empty `ls` joined by `"\n"` with a
/// final `"\n"`.
pub proof fn lemma_lines_of_written(ls: Seq<Seq<char>>)
    requires
        ls.len() > 0,
        single_lines(ls),
    ensures
        lines(join(ls, seq!['\n']) + seq!['\n']) == ls.map_values(|l: Seq<char>| strip_cr(l)),
{
    let s = join(ls, seq!['\n']) + seq!['\n'];
    lemma_join_nl(ls);
    assert(s.skip(0) =~= s);
    lemma_lines_unlines(s, 0, ls);
}

/// Trimming ignores one trailing `'\r'`.
pub proof fn lemma_trim_strip_cr(l: Seq<char>)
    ensures
        trim(strip_cr(l)) == trim(l),
{
    if l.len() > 0 && l.last() == '\r' {
        assert(is_ws('\r'));
        lemma_trim_end_drop_ws(trim_start(l), l);
    }
}

/// `trim(l)` and `trim(l minus a final whitespace character)` agree.
proof fn lemma_trim_end_drop_ws(x: Seq<char>, l: Seq<char>)
    requires
        l.len() > 0,
        is_ws(l.last()),
        x == trim_start(l),
    ensures
        trim_end(trim_start(l.drop_last())) == trim_end(trim_start(l)),
    decreases l.len(),
{
    if l.len() > 0 && is_ws(l[0]) {
        if l.len() == 1 {
            assert(l.drop_last() =~= Seq::<char>::empty());
            assert(l.drop_first() =~= Seq::<char>::empty());
        } else {
            assert(l.drop_first().drop_last() =~= l.drop_last().drop_first());
            assert(l.drop_first().last() == l.last());
            lemma_trim_end_drop_ws(trim_start(l.drop_first()), l.drop_first());
        }
    } else {
        assert(l.drop_last().len() == 0 || l.drop_last()[0] == l[0]);
        assert(trim_start(l.drop_last()) == l.drop_last());
        assert(trim_start(l) == l);
        assert(l.drop_last() == l.drop_last());
    }
}


/// No line `str::lines` yields holds a line break.
pub proof fn lemma_lines_single(s: Seq<char>, i: int)
    requires
        0 <= i,
    ensures
        single_lines(lines_from(s, i)),
    decreases s.len() - i,
{
    if i < s.len() {
        lemma_next_nl_bounds(s, i);
        let j = next_nl(s, i);
        let w = s.subrange(i, j);
        assert(!w.contains('\n')) by {
            if w.contains('\n') {
                let m = choose|m: int| 0 <= m < w.len() && w[m] == '\n';
                assert(s[i + m] == '\n');
            }
        }
        assert(!strip_cr(w).contains('\n')) by {
            if strip_cr(w).contains('\n') {
                let m = choose|m: int| 0 <= m < strip_cr(w).len() && strip_cr(w)[m] == '\n';
                assert(w[m] == '\n');
            }
        }
        if j < s.len() {
            lemma_lines_single(s, j + 1);
            let rest = lines_from(s, j + 1);
            assert forall|k: int| 0 <= k < lines_from(s, i).len() implies !(
            #[trigger] lines_from(s, i)[k]).contains('\n') by {
                if k > 0 {
                    assert(lines_from(s, i)[k] == rest[k - 1]);
                }
            }
        }
    }
}


/// `s` with every non-overlapping occurrence of the non-empty `p`, taken
/// from the left, replaced by `t` (`str::replace`).
pub open spec fn replace_all(s: Seq<char>, p: Seq<char>, t: Seq<char>) -> Seq<char>
    decreases s.len(),
{
    if s.len() == 0 || p.len() == 0 {
        s
    } else if occurs_at(s, p, 0) {
        t + replace_all(s.skip(p.len() as int), p, t)
    } else {
        seq![s[0]] + replace_all(s.drop_first(), p, t)
    }
}

/// `s` with every occurrence of the non-empty `p` replaced by `t`.
pub fn replace_str(s: &str, p: &str, t: &str) -> (r: String)
    requires
        p@.len() > 0,
    ensures
        r@ == replace_all(s@, p@, t@),
{
    let sc = chars_of(s);
    let pc = chars_of(p);
    let tc = chars_of(t);
    let mut out: Vec<char> = Vec::new();
    let mut i: usize = 0;
    assert(sc@.skip(0) =~= sc@);
    while i < sc.len()
        invariant
            i <= sc.len(),
            pc@.len() > 0,
            pc@ == p@,
            tc@ == t@,
            replace_all(sc@, pc@, tc@) == out@ + replace_all(sc@.skip(i as int), pc@, tc@),
        decreases sc.len() - i,
    {
        let ghost rest = sc@.skip(i as int);
        if occurs_at_exec(&sc, &pc, i) {
            assert(occurs_at(rest, pc@, 0)) by {
                assert(rest.subrange(0, pc@.len() as int) =~= sc@.subrange(
                    i as int,
                    i + pc@.len(),
                ));
            }
            assert(rest.skip(pc@.len() as int) =~= sc@.skip(i + pc@.len()));
            let ghost before = out@;
            append_vec(&mut out, &tc);
            assert(before + (tc@ + replace_all(sc@.skip(i + pc@.len()), pc@, tc@)) =~= out@
                + replace_all(sc@.skip(i + pc@.len()), pc@, tc@));
            i = i + pc.len();
        } else {
            assert(!occurs_at(rest, pc@, 0)) by {
                if occurs_at(rest, pc@, 0) {
                    assert(rest.subrange(0, pc@.len() as int) =~= sc@.subrange(
                        i as int,
                        i + pc@.len(),
                    ));
                }
            }
            assert(rest.drop_first() =~= sc@.skip(i + 1));
            assert(rest[0] == sc@[i as int]);
            let ghost before = out@;
            out.push(sc[i]);
            assert(before + (seq![sc@[i as int]] + replace_all(sc@.skip(i + 1), pc@, tc@))
                =~= out@ + replace_all(sc@.skip(i + 1), pc@, tc@));
            i = i + 1;
        }
    }
    assert(sc@.skip(sc.len() as int) =~= Seq::<char>::empty());
    assert(out@ + Seq::<char>::empty() =~= out@);
    string_of(&out)
}


/// An ASCII decimal digit.
pub open spec fn is_digit(c: char) -> bool {
    '0' <= c && c <= '9'
}

/// A decimal rendering is made of digits only and is never empty.
pub proof fn lemma_dec_digits(n: nat)
    ensures
        dec(n).len() > 0,
        forall|i: int| 0 <= i < dec(n).len() ==> is_digit(#[trigger] dec(n)[i]),
    decreases n,
{
    if n >= 10 {
        lemma_dec_digits(n / 10);
        let d = dec(n / 10);
        assert forall|i: int| 0 <= i < dec(n).len() implies is_digit(#[trigger] dec(n)[i]) by {
            if i < d.len() {
                assert(dec(n)[i] == d[i]);
            }
        }
    }
}


/// The decimal rendering of a signed integer (`to_string` of `i32`/`i64`).
pub open spec fn dec_int(n: int) -> Seq<char> {
    if n < 0 {
        seq!['-'] + dec((-n) as nat)
    } else {
        dec(n as nat)
    }
}

/// The decimal rendering of a signed integer.
pub fn dec_i64(n: i64) -> (r: Vec<char>)
    requires
        n > i64::MIN,
    ensures
        r@ == dec_int(n as int),
{
    if n < 0 {
        let mut v: Vec<char> = Vec::new();
        v.push('-');
        let d = dec_vec((0 - n) as u64);
        append_vec(&mut v, &d);
        assert(v@ =~= seq!['-'] + dec((-n) as nat));
        v
    } else {
        dec_vec(n as u64)
    }
}


// ---------------------------------------------------------------------------
// Facts about blank text, substrings and joined lines
// ---------------------------------------------------------------------------

/// Trimming the start of an all-whitespace text leaves nothing.
pub proof fn lemma_all_ws_trim_start(s: Seq<char>)
    requires
        all_ws(s),
    ensures
        trim_start(s).len() == 0,
    decreases s.len(),
{
    if s.len() > 0 {
        assert(is_ws(s[0]));
        assert(all_ws(s.drop_first())) by {
            assert forall|i: int| 0 <= i < s.drop_first().len() implies is_ws(
                #[trigger] s.drop_first()[i],
            ) by {
                assert(s.drop_first()[i] == s[i + 1]);
            }
        }
        lemma_all_ws_trim_start(s.drop_first());
    }
}

proof fn lemma_trim_start_empty(s: Seq<char>)
    requires
        trim_start(s).len() == 0,
    ensures
        all_ws(s),
    decreases s.len(),
{
    if s.len() > 0 {
        assert(is_ws(s[0]));
        lemma_trim_start_empty(s.drop_first());
        assert forall|i: int| 0 <= i < s.len() implies is_ws(#[trigger] s[i]) by {
            if i > 0 {
                assert(s[i] == s.drop_first()[i - 1]);
            }
        }
    }
}

proof fn lemma_trim_end_empty(s: Seq<char>)
    requires
        trim_end(s).len() == 0,
    ensures
        all_ws(s),
    decreases s.len(),
{
    if s.len() > 0 {
        assert(is_ws(s.last()));
        lemma_trim_end_empty(s.drop_last());
        assert forall|i: int| 0 <= i < s.len() implies is_ws(#[trigger] s[i]) by {
            if i < s.len() - 1 {
                assert(s[i] == s.drop_last()[i]);
            }
        }
    }
}

/// A text that trims to nothing is all whitespace.
pub proof fn lemma_trim_empty_all_ws(s: Seq<char>)
    requires
        trim(s).len() == 0,
    ensures
        all_ws(s),
{
    let x = trim_start(s);
    lemma_trim_end_empty(x);
    lemma_trim_start_head(s);
    if x.len() > 0 {
        assert(is_ws(x[0]));
    }
    lemma_trim_start_empty(s);
}

/// Trimming the start of `m + [c]` when `m` holds some non-whitespace.
pub proof fn lemma_trim_start_push(m: Seq<char>, c: char)
    requires
        !all_ws(m),
    ensures
        trim_start(m.push(c)) == trim_start(m).push(c),
    decreases m.len(),
{
    if m.len() > 0 && is_ws(m[0]) {
        assert(!all_ws(m.drop_first())) by {
            let i = choose|i: int| 0 <= i < m.len() && !is_ws(#[trigger] m[i]);
            assert(i > 0);
            assert(m.drop_first()[i - 1] == m[i]);
        }
        assert(m.push(c).drop_first() =~= m.drop_first().push(c));
        lemma_trim_start_push(m.drop_first(), c);
    } else {
        assert(m.len() > 0) by {
            if m.len() == 0 {
                assert(all_ws(m));
            }
        }
    }
}

/// An occurrence in a longer text.
pub proof fn lemma_contains_extend(a: Seq<char>, b: Seq<char>, x: Seq<char>)
    requires
        contains(a, x),
    ensures
        contains(a + b, x),
{
    let i = choose|i: int| occurs_at(a, x, i);
    assert((a + b).subrange(i, i + x.len()) =~= a.subrange(i, i + x.len()));
    assert(occurs_at(a + b, x, i));
}

/// An occurrence that cannot end in the last character `c` lies in the
/// text before it.
pub proof fn lemma_contains_before_last(a: Seq<char>, c: char, x: Seq<char>)
    requires
        contains(a.push(c), x),
        x.len() > 0,
        x.last() != c,
    ensures
        contains(a, x),
{
    let i = choose|i: int| occurs_at(a.push(c), x, i);
    if i + x.len() == a.len() + 1 {
        assert(a.push(c).subrange(i, i + x.len())[x.len() - 1] == a.push(c)[a.len() as int]);
        assert(false);
    }
    assert(a.subrange(i, i + x.len()) =~= a.push(c).subrange(i, i + x.len()));
    assert(occurs_at(a, x, i));
}

/// An occurrence of `x` in an occurrence of `y` is one in the whole text.
pub proof fn lemma_contains_within(s: Seq<char>, y: Seq<char>, o: int, x: Seq<char>)
    requires
        occurs_at(s, y, o),
        contains(y, x),
    ensures
        contains(s, x),
{
    let i = choose|i: int| occurs_at(y, x, i);
    assert(s.subrange(o + i, o + i + x.len()) =~= y.subrange(i, i + x.len()));
    assert(occurs_at(s, x, o + i));
}

/// Every line occurs in the joined text.
pub proof fn lemma_join_embeds(ls: Seq<Seq<char>>, sep: Seq<char>, i: int)
    requires
        0 <= i < ls.len(),
    ensures
        exists|o: int| occurs_at(join(ls, sep), ls[i], o),
    decreases ls.len(),
{
    let j = join(ls, sep);
    if ls.len() == 1 {
        assert(j.subrange(0, ls[0].len() as int) =~= ls[0]);
        assert(occurs_at(j, ls[i], 0));
    } else if i == ls.len() - 1 {
        let pre = join(ls.drop_last(), sep) + sep;
        assert(j == pre + ls.last());
        assert(j.subrange(pre.len() as int, pre.len() + ls[i].len() as int) =~= ls[i]);
        assert(occurs_at(j, ls[i], pre.len() as int));
    } else {
        lemma_join_embeds(ls.drop_last(), sep, i);
        let pj = join(ls.drop_last(), sep);
        let o = choose|o: int| occurs_at(pj, ls.drop_last()[i], o);
        assert(j == pj + (sep + ls.last()));
        assert(j.subrange(o, o + ls[i].len()) =~= pj.subrange(o, o + ls[i].len()));
        assert(occurs_at(j, ls[i], o));
    }
}

/// A single-line text found in joined lines is found in one of the lines.
pub proof fn lemma_join_locate(ls: Seq<Seq<char>>, x: Seq<char>)
    requires
        contains(join(ls, seq!['\n']), x),
        !x.contains('\n'),
        x.len() > 0,
    ensures
        exists|i: int| 0 <= i < ls.len() && contains(#[trigger] ls[i], x),
    decreases ls.len(),
{
    let j = join(ls, seq!['\n']);
    if ls.len() == 0 {
        assert(j.len() == 0);
    } else if ls.len() == 1 {
        assert(contains(ls[0], x));
    } else {
        let pj = join(ls.drop_last(), seq!['\n']);
        let last = ls.last();
        assert(j == pj + seq!['\n'] + last);
        let q = choose|q: int| occurs_at(j, x, q);
        if q + x.len() <= pj.len() {
            assert(pj.subrange(q, q + x.len()) =~= j.subrange(q, q + x.len()));
            assert(occurs_at(pj, x, q));
            lemma_join_locate(ls.drop_last(), x);
            let i = choose|i: int| 0 <= i < ls.drop_last().len() && contains(
                #[trigger] ls.drop_last()[i],
                x,
            );
            assert(ls[i] == ls.drop_last()[i]);
        } else if q >= pj.len() + 1 {
            let k = q - pj.len() - 1;
            assert(last.subrange(k, k + x.len()) =~= j.subrange(q, q + x.len()));
            assert(occurs_at(last, x, k));
            assert(contains(ls[ls.len() - 1], x));
        } else {
            let k = pj.len() - q;
            assert(j[pj.len() as int] == '\n');
            assert(x[k] == j.subrange(q, q + x.len())[k]);
            assert(x.contains('\n'));
        }
    }
}

/// Replacing occurrences by a text without `c` introduces no `c`.
pub proof fn lemma_replace_all_no_char(s: Seq<char>, p: Seq<char>, t: Seq<char>, c: char)
    requires
        !s.contains(c),
        !t.contains(c),
    ensures
        !replace_all(s, p, t).contains(c),
    decreases s.len(),
{
    if s.len() > 0 && p.len() > 0 {
        if occurs_at(s, p, 0) {
            let rest = s.skip(p.len() as int);
            assert(!rest.contains(c)) by {
                if rest.contains(c) {
                    let k = choose|k: int| 0 <= k < rest.len() && rest[k] == c;
                    assert(s[k + p.len()] == c);
                }
            }
            lemma_replace_all_no_char(rest, p, t, c);
            let r = t + replace_all(rest, p, t);
            assert(!r.contains(c)) by {
                if r.contains(c) {
                    let k = choose|k: int| 0 <= k < r.len() && r[k] == c;
                    if k < t.len() {
                        assert(t[k] == c);
                    } else {
                        assert(replace_all(rest, p, t)[k - t.len()] == c);
                    }
                }
            }
        } else {
            let rest = s.drop_first();
            assert(!rest.contains(c)) by {
                if rest.contains(c) {
                    let k = choose|k: int| 0 <= k < rest.len() && rest[k] == c;
                    assert(s[k + 1] == c);
                }
            }
            lemma_replace_all_no_char(rest, p, t, c);
            let r = seq![s[0]] + replace_all(rest, p, t);
            assert(!r.contains(c)) by {
                if r.contains(c) {
                    let k = choose|k: int| 0 <= k < r.len() && r[k] == c;
                    if k == 0 {
                        assert(s[0] == c);
                    } else {
                        assert(replace_all(rest, p, t)[k - 1] == c);
                    }
                }
            }
        }
    }
}

/// Joined single lines end with a line break only after an empty last line.
pub proof fn lemma_join_ends_nl(ls: Seq<Seq<char>>)
    requires
        single_lines(ls),
        ends_with(join(ls, seq!['\n']), seq!['\n']),
    ensures
        ls.len() >= 2,
        ls.last() == Seq::<char>::empty(),
        join(ls, seq!['\n']) == join(ls.drop_last(), seq!['\n']) + seq!['\n'],
{
    let j = join(ls, seq!['\n']);
    assert(j.len() >= 1);
    assert(j[j.len() - 1] == '\n') by {
        assert(j.skip(j.len() - 1)[0] == j[j.len() - 1]);
    }
    if ls.len() == 0 {
        assert(false);
    } else if ls.len() == 1 {
        assert(ls[0].contains('\n')) by {
            assert(ls[0][ls[0].len() - 1] == '\n');
        }
        assert(false);
    } else {
        let pj = join(ls.drop_last(), seq!['\n']);
        let last = ls.last();
        assert(j == pj + seq!['\n'] + last);
        if last.len() > 0 {
            assert(last[last.len() - 1] == j[j.len() - 1]);
            assert(ls[ls.len() - 1].contains('\n'));
            assert(false);
        }
        assert(last =~= Seq::<char>::empty());
        assert(j =~= pj + seq!['\n']);
    }
}

} // verus!
