//! Character-level text model shared by the parsers and formatters.
//!
//! Every operation here is stated over `Seq<char>`, the view of `str` and
//! `String`, and mirrors the `str` method that the parsers are written
//! against (`trim`, `split_whitespace`, `lines`, `split_once`, `parse`).

use vstd::prelude::*;

verus! {

// ---------------------------------------------------------------------------
// Conversions between `str`/`String` and character vectors
// ---------------------------------------------------------------------------

/// The characters of `s`, in order.
pub fn chars_of(s: &str) -> (v: Vec<char>)
    ensures
        v@ == s@,
{
    let mut v: Vec<char> = Vec::new();
    for c in it: s.chars()
        invariant
            v@ == it.seq().take(it.index() as int),
            it.seq() == s@,
    {
        v.push(c);
    }
    v
}

/// Appends one character to a `String` (std's `String::push`).
#[verifier::external_body]
fn push_char(s: &mut String, c: char)
    ensures
        final(s)@ == old(s)@.push(c),
{
    s.push(c);
}

/// A `String` holding exactly the characters of `v`.
pub fn string_of(v: &[char]) -> (s: String)
    ensures
        s@ == v@,
{
    let mut s = String::new();
    let mut i: usize = 0;
    while i < v.len()
        invariant
            i <= v@.len(),
            s@ == v@.take(i as int),
        decreases v@.len() - i,
    {
        push_char(&mut s, v[i]);
        assert(v@.take(i as int).push(v@[i as int]) =~= v@.take(i + 1));
        i += 1;
    }
    assert(v@.take(v@.len() as int) =~= v@);
    s
}

/// A `String` holding the characters of the literal or slice `s`.
pub fn string_from(s: &str) -> (r: String)
    ensures
        r@ == s@,
{
    let v = chars_of(s);
    string_of(&v)
}

/// The characters `v[a..b]`.
pub fn slice_of(v: &[char], a: usize, b: usize) -> (r: Vec<char>)
    requires
        a <= b <= v@.len(),
    ensures
        r@ == v@.subrange(a as int, b as int),
{
    let mut r: Vec<char> = Vec::new();
    let mut i = a;
    while i < b
        invariant
            a <= i <= b <= v@.len(),
            r@ == v@.subrange(a as int, i as int),
        decreases b - i,
    {
        r.push(v[i]);
        assert(v@.subrange(a as int, i as int).push(v@[i as int]) =~= v@.subrange(
            a as int,
            i + 1,
        ));
        i += 1;
    }
    r
}

/// Appends the characters of `w` to `out`.
pub fn push_all(out: &mut Vec<char>, w: &[char])
    ensures
        final(out)@ == old(out)@ + w@,
{
    let mut i: usize = 0;
    while i < w.len()
        invariant
            i <= w@.len(),
            out@ == old(out)@ + w@.take(i as int),
        decreases w@.len() - i,
    {
        out.push(w[i]);
        assert(old(out)@ + w@.take(i as int).push(w@[i as int]) =~= old(out)@ + w@.take(i + 1));
        i += 1;
    }
    assert(w@.take(w@.len() as int) =~= w@);
}

/// Appends the characters of the literal or slice `s` to `out`.
pub fn push_str(out: &mut Vec<char>, s: &str)
    ensures
        final(out)@ == old(out)@ + s@,
{
    let w = chars_of(s);
    push_all(out, &w);
}

/// Whether `a` and `b` hold the same characters.
pub fn chars_eq(a: &[char], b: &[char]) -> (r: bool)
    ensures
        r == (a@ == b@),
{
    if a.len() != b.len() {
        return false;
    }
    let mut i: usize = 0;
    while i < a.len()
        invariant
            a@.len() == b@.len(),
            i <= a@.len(),
            forall|j: int| 0 <= j < i ==> a@[j] == b@[j],
        decreases a@.len() - i,
    {
        if a[i] != b[i] {
            return false;
        }
        i += 1;
    }
    assert(a@ =~= b@);
    true
}

// ---------------------------------------------------------------------------
// Whitespace and trimming
// ---------------------------------------------------------------------------

/// Unicode `White_Space`, the property behind `char::is_whitespace`.
pub open spec fn is_ws(c: char) -> bool {
    let u = c as u32;
    ||| 0x09 <= u <= 0x0D
    ||| u == 0x20
    ||| u == 0x85
    ||| u == 0xA0
    ||| u == 0x1680
    ||| 0x2000 <= u <= 0x200A
    ||| u == 0x2028
    ||| u == 0x2029
    ||| u == 0x202F
    ||| u == 0x205F
    ||| u == 0x3000
}

/// `char::is_whitespace`.
pub fn is_whitespace(c: char) -> (r: bool)
    ensures
        r == is_ws(c),
{
    let u = c as u32;
    (0x09 <= u && u <= 0x0D) || u == 0x20 || u == 0x85 || u == 0xA0 || u == 0x1680 || (0x2000
        <= u && u <= 0x200A) || u == 0x2028 || u == 0x2029 || u == 0x202F || u == 0x205F || u
        == 0x3000
}

/// `str::trim_start`: drops the leading whitespace.
pub open spec fn trim_start(s: Seq<char>) -> Seq<char>
    decreases s.len(),
{
    if s.len() > 0 && is_ws(s[0]) {
        trim_start(s.drop_first())
    } else {
        s
    }
}

/// `str::trim_end`: drops the trailing whitespace.
pub open spec fn trim_end(s: Seq<char>) -> Seq<char>
    decreases s.len(),
{
    if s.len() > 0 && is_ws(s.last()) {
        trim_end(s.drop_last())
    } else {
        s
    }
}

/// `str::trim`: drops whitespace at both ends.
pub open spec fn trim(s: Seq<char>) -> Seq<char> {
    trim_end(trim_start(s))
}

/// Whether `s` has no whitespace at either end.
pub open spec fn is_trimmed(s: Seq<char>) -> bool {
    s.len() > 0 ==> !is_ws(s[0]) && !is_ws(s.last())
}

pub proof fn lemma_trim_start_at(s: Seq<char>, k: int)
    requires
        0 <= k <= s.len(),
        forall|j: int| 0 <= j < k ==> is_ws(#[trigger] s[j]),
        k == s.len() || !is_ws(s[k]),
    ensures
        trim_start(s) == s.skip(k),
    decreases k,
{
    if k == 0 {
        assert(s.skip(0) =~= s);
    } else {
        assert(s.drop_first().skip(k - 1) =~= s.skip(k));
        assert forall|j: int| 0 <= j < k - 1 implies is_ws(#[trigger] s.drop_first()[j]) by {
            assert(s.drop_first()[j] == s[j + 1]);
        }
        lemma_trim_start_at(s.drop_first(), k - 1);
    }
}

pub proof fn lemma_trim_end_at(s: Seq<char>, k: int)
    requires
        0 <= k <= s.len(),
        forall|j: int| k <= j < s.len() ==> is_ws(#[trigger] s[j]),
        k == 0 || !is_ws(s[k - 1]),
    ensures
        trim_end(s) == s.take(k),
    decreases s.len() - k,
{
    if k == s.len() {
        assert(s.take(k) =~= s);
    } else {
        assert(s.drop_last().take(k) =~= s.take(k));
        lemma_trim_end_at(s.drop_last(), k);
    }
}

/// A text with no whitespace at its ends is its own trim.
pub proof fn lemma_trim_trimmed(s: Seq<char>)
    requires
        is_trimmed(s),
    ensures
        trim(s) == s,
        trim_start(s) == s,
{
    lemma_trim_start_at(s, 0);
    assert(s.skip(0) =~= s);
    lemma_trim_end_at(s, s.len() as int);
    assert(s.take(s.len() as int) =~= s);
}

/// Index of the first non-whitespace character of `v[from..]`, or `v.len()`.
pub fn skip_ws(v: &[char], from: usize) -> (k: usize)
    requires
        from <= v@.len(),
    ensures
        from <= k <= v@.len(),
        forall|j: int| from <= j < k ==> is_ws(#[trigger] v@[j]),
        k == v@.len() || !is_ws(v@[k as int]),
        trim_start(v@.skip(from as int)) == v@.skip(k as int),
{
    let mut k = from;
    while k < v.len() && is_whitespace(v[k])
        invariant
            from <= k <= v@.len(),
            forall|j: int| from <= j < k ==> is_ws(#[trigger] v@[j]),
        decreases v@.len() - k,
    {
        k += 1;
    }
    proof {
        let s = v@.skip(from as int);
        assert forall|j: int| 0 <= j < k - from implies is_ws(#[trigger] s[j]) by {
            assert(s[j] == v@[j + from]);
        }
        lemma_trim_start_at(s, k - from);
        assert(s.skip(k - from) =~= v@.skip(k as int));
    }
    k
}

/// `str::trim`.
pub fn trim_chars(v: &[char]) -> (r: Vec<char>)
    ensures
        r@ == trim(v@),
{
    let a = skip_ws(v, 0);
    let mut b = v.len();
    while b > a && is_whitespace(v[b - 1])
        invariant
            a <= b <= v@.len(),
            forall|j: int| b <= j < v@.len() ==> is_ws(#[trigger] v@[j]),
        decreases b,
    {
        b -= 1;
    }
    proof {
        let s = v@.skip(a as int);
        assert(v@.skip(0) =~= v@);
        assert forall|j: int| b - a <= j < s.len() implies is_ws(#[trigger] s[j]) by {
            assert(s[j] == v@[j + a]);
        }
        if b > a {
            assert(s[b - a - 1] == v@[b - 1]);
        }
        lemma_trim_end_at(s, b - a);
        assert(s.take(b - a) =~= v@.subrange(a as int, b as int));
    }
    slice_of(v, a, b)
}

/// `str::trim_start`.
pub fn trim_start_chars(v: &[char]) -> (r: Vec<char>)
    ensures
        r@ == trim_start(v@),
{
    let a = skip_ws(v, 0);
    assert(v@.skip(0) =~= v@);
    assert(v@.skip(a as int) =~= v@.subrange(a as int, v@.len() as int));
    slice_of(v, a, v.len())
}


// ---------------------------------------------------------------------------
// Searching
// ---------------------------------------------------------------------------

/// Length of the longest prefix of `s` none of whose characters satisfy `p`:
/// the index of the first match, or `s.len()` when there is none.
pub open spec fn run_until(s: Seq<char>, p: spec_fn(char) -> bool) -> int
    decreases s.len(),
{
    if s.len() == 0 || p(s[0]) {
        0
    } else {
        1 + run_until(s.drop_first(), p)
    }
}

pub proof fn lemma_run_until(s: Seq<char>, p: spec_fn(char) -> bool)
    ensures
        0 <= run_until(s, p) <= s.len(),
        forall|j: int| 0 <= j < run_until(s, p) ==> !p(#[trigger] s[j]),
        run_until(s, p) < s.len() ==> p(s[run_until(s, p)]),
    decreases s.len(),
{
    if s.len() > 0 && !p(s[0]) {
        lemma_run_until(s.drop_first(), p);
        assert forall|j: int| 0 <= j < run_until(s, p) implies !p(#[trigger] s[j]) by {
            if j > 0 {
                assert(s[j] == s.drop_first()[j - 1]);
            }
        }
    }
}

pub proof fn lemma_run_until_at(s: Seq<char>, p: spec_fn(char) -> bool, k: int)
    requires
        0 <= k <= s.len(),
        forall|j: int| 0 <= j < k ==> !p(#[trigger] s[j]),
        k == s.len() || p(s[k]),
    ensures
        run_until(s, p) == k,
{
    lemma_run_until(s, p);
    let r = run_until(s, p);
    if r < k {
        assert(!p(s[r]));
    } else if r > k {
        assert(!p(s[k]));
    }
}

/// The predicate "is the character `c`".
pub open spec fn is_char(c: char) -> spec_fn(char) -> bool {
    |x: char| x == c
}

/// `str::find(c)`: index of the first occurrence of `c`.
pub open spec fn find_char(s: Seq<char>, c: char) -> Option<int> {
    let k = run_until(s, is_char(c));
    if k < s.len() {
        Some(k)
    } else {
        None
    }
}

/// `str::split_once(c)`: the text before and after the first `c`.
pub open spec fn split_once(s: Seq<char>, c: char) -> Option<(Seq<char>, Seq<char>)> {
    match find_char(s, c) {
        Some(k) => Some((s.take(k), s.skip(k + 1))),
        None => None,
    }
}

/// `str::rfind(c)`: index of the last occurrence of `c`.
pub open spec fn rfind_char(s: Seq<char>, c: char) -> Option<int>
    decreases s.len(),
{
    if s.len() == 0 {
        None
    } else if s.last() == c {
        Some(s.len() - 1)
    } else {
        rfind_char(s.drop_last(), c)
    }
}

pub proof fn lemma_rfind_char(s: Seq<char>, c: char)
    ensures
        match rfind_char(s, c) {
            Some(k) => 0 <= k < s.len() && s[k] == c && forall|j: int|
                k < j < s.len() ==> #[trigger] s[j] != c,
            None => forall|j: int| 0 <= j < s.len() ==> #[trigger] s[j] != c,
        },
    decreases s.len(),
{
    if s.len() > 0 && s.last() != c {
        lemma_rfind_char(s.drop_last(), c);
        assert forall|j: int| 0 <= j < s.len() - 1 implies s.drop_last()[j] == #[trigger] s[j] by {}
    }
}

/// Index of the first `c` in `v[from..]`, or `v.len()`.
pub fn find_from(v: &[char], from: usize, c: char) -> (k: usize)
    requires
        from <= v@.len(),
    ensures
        from <= k <= v@.len(),
        forall|j: int| from <= j < k ==> #[trigger] v@[j] != c,
        k < v@.len() ==> v@[k as int] == c,
        run_until(v@.skip(from as int), is_char(c)) == k - from,
{
    let mut k = from;
    while k < v.len() && v[k] != c
        invariant
            from <= k <= v@.len(),
            forall|j: int| from <= j < k ==> #[trigger] v@[j] != c,
        decreases v@.len() - k,
    {
        k += 1;
    }
    proof {
        let s = v@.skip(from as int);
        let p = is_char(c);
        assert forall|j: int| 0 <= j < k - from implies !p(#[trigger] s[j]) by {
            assert(s[j] == v@[j + from]);
        }
        lemma_run_until_at(s, p, k - from);
    }
    k
}

/// `str::split_once(c)`.
pub fn split_once_chars(v: &[char], c: char) -> (r: Option<(Vec<char>, Vec<char>)>)
    ensures
        match r {
            Some((a, b)) => split_once(v@, c) == Some((a@, b@)),
            None => split_once(v@, c) is None,
        },
{
    let k = find_from(v, 0, c);
    assert(v@.skip(0) =~= v@);
    if k < v.len() {
        let a = slice_of(v, 0, k);
        let b = slice_of(v, k + 1, v.len());
        assert(a@ =~= v@.take(k as int));
        assert(b@ =~= v@.skip(k + 1));
        Some((a, b))
    } else {
        None
    }
}

/// `str::rfind(c)`.
pub fn rfind_chars(v: &[char], c: char) -> (r: Option<usize>)
    ensures
        match r {
            Some(k) => rfind_char(v@, c) == Some(k as int),
            None => rfind_char(v@, c) is None,
        },
{
    let mut k = v.len();
    assert(v@.take(k as int) =~= v@);
    while k > 0 && v[k - 1] != c
        invariant
            k <= v@.len(),
            rfind_char(v@, c) == rfind_char(v@.take(k as int), c),
        decreases k,
    {
        assert(v@.take(k as int).drop_last() =~= v@.take(k - 1));
        k -= 1;
    }
    if k == 0 {
        assert(v@.take(0).len() == 0);
        None
    } else {
        Some(k - 1)
    }
}

/// `str::starts_with(p)` for a text pattern.
pub open spec fn starts_with(s: Seq<char>, p: Seq<char>) -> bool {
    p.len() <= s.len() && s.take(p.len() as int) == p
}

/// `str::strip_prefix(p)`.
pub open spec fn strip_prefix(s: Seq<char>, p: Seq<char>) -> Option<Seq<char>> {
    if starts_with(s, p) {
        Some(s.skip(p.len() as int))
    } else {
        None
    }
}

/// Whether `p` occurs in `v` at position `at`.
pub fn matches_at(v: &[char], at: usize, p: &[char]) -> (r: bool)
    requires
        at <= v@.len(),
    ensures
        r == starts_with(v@.skip(at as int), p@),
{
    let n = v.len();
    if p.len() > n - at {
        return false;
    }
    let mut i: usize = 0;
    while i < p.len()
        invariant
            n == v@.len(),
            at + p@.len() <= n,
            i <= p@.len(),
            forall|j: int| 0 <= j < i ==> v@[at + j] == p@[j],
        decreases p@.len() - i,
    {
        if v[at + i] != p[i] {
            assert(v@.skip(at as int).take(p@.len() as int)[i as int] != p@[i as int]);
            return false;
        }
        i += 1;
    }
    assert(v@.skip(at as int).take(p@.len() as int) =~= p@);
    true
}

/// `str::strip_prefix(p)`.
pub fn strip_prefix_chars(v: &[char], p: &str) -> (r: Option<Vec<char>>)
    ensures
        match r {
            Some(rest) => strip_prefix(v@, p@) == Some(rest@),
            None => strip_prefix(v@, p@) is None,
        },
{
    let pc = chars_of(p);
    assert(v@.skip(0) =~= v@);
    if matches_at(v, 0, &pc) {
        let rest = slice_of(v, pc.len(), v.len());
        assert(rest@ =~= v@.skip(pc@.len() as int));
        Some(rest)
    } else {
        None
    }
}

/// `str::contains(p)` for a text pattern.
pub open spec fn contains_text(s: Seq<char>, p: Seq<char>) -> bool {
    exists|i: int| 0 <= i <= s.len() && #[trigger] starts_with(s.skip(i), p)
}

/// `str::contains(p)`.
pub fn contains_chars(v: &[char], p: &[char]) -> (r: bool)
    ensures
        r == contains_text(v@, p@),
{
    let mut i: usize = 0;
    loop
        invariant
            i <= v@.len(),
            forall|j: int| 0 <= j < i ==> !#[trigger] starts_with(v@.skip(j), p@),
        decreases v@.len() - i,
    {
        if matches_at(v, i, p) {
            return true;
        }
        if i == v.len() {
            return false;
        }
        i += 1;
    }
}


// ---------------------------------------------------------------------------
// Splitting into words and lines
// ---------------------------------------------------------------------------

/// `str::split_whitespace`: the maximal runs of non-whitespace characters.
pub open spec fn split_ws(s: Seq<char>) -> Seq<Seq<char>>
    decreases s.len(),
{
    if s.len() == 0 {
        seq![]
    } else if is_ws(s[0]) {
        split_ws(s.drop_first())
    } else {
        let k = run_until(s, |x: char| is_ws(x));
        proof {
            lemma_run_until(s, |x: char| is_ws(x));
        }
        seq![s.take(k)] + split_ws(s.skip(k))
    }
}

/// The predicate `is_ws`, as a value.
pub open spec fn ws_pred() -> spec_fn(char) -> bool {
    |x: char| is_ws(x)
}

/// `str::split_whitespace`, collected.
pub fn split_whitespace_chars(v: &[char]) -> (r: Vec<Vec<char>>)
    ensures
        r.deep_view() == split_ws(v@),
{
    let mut r: Vec<Vec<char>> = Vec::new();
    let mut i: usize = 0;
    assert(v@.skip(0) =~= v@);
    while i < v.len()
        invariant
            i <= v@.len(),
            split_ws(v@) == r.deep_view() + split_ws(v@.skip(i as int)),
        decreases v@.len() - i,
    {
        if is_whitespace(v[i]) {
            assert(v@.skip(i as int).drop_first() =~= v@.skip(i + 1));
            i += 1;
        } else {
            let mut j = i;
            while j < v.len() && !is_whitespace(v[j])
                invariant
                    i <= j <= v@.len(),
                    forall|m: int| i <= m < j ==> !is_ws(#[trigger] v@[m]),
                decreases v@.len() - j,
            {
                j += 1;
            }
            let tok = slice_of(v, i, j);
            let ghost old_dv = r.deep_view();
            proof {
                let s = v@.skip(i as int);
                assert forall|m: int| 0 <= m < j - i implies !(ws_pred())(#[trigger] s[m]) by {
                    assert(s[m] == v@[m + i]);
                }
                lemma_run_until_at(s, ws_pred(), j - i);
                assert(ws_pred() == (|x: char| is_ws(x)));
                assert(s.take(j - i) =~= tok@);
                assert(s.skip(j - i) =~= v@.skip(j as int));
                assert(split_ws(s) == seq![tok@] + split_ws(v@.skip(j as int)));
                assert(old_dv.push(tok@) + split_ws(v@.skip(j as int)) =~= old_dv + (seq![tok@]
                    + split_ws(v@.skip(j as int))));
            }
            r.push(tok);
            assert(r.deep_view() =~~= old_dv.push(tok@));
            i = j;
        }
    }
    assert(split_ws(v@.skip(i as int)) =~= seq![]);
    assert(r.deep_view() + seq![] =~= r.deep_view());
    r
}

/// A line as `str::lines` yields it: a trailing `'\r'` is dropped.
pub open spec fn strip_cr(s: Seq<char>) -> Seq<char> {
    if s.len() > 0 && s.last() == '\r' {
        s.drop_last()
    } else {
        s
    }
}

/// `str::lines`: the text split at each `'\n'`, each line without its
/// `"\r\n"` or `"\n"` ending; a final line ending yields no empty line.
pub open spec fn lines(s: Seq<char>) -> Seq<Seq<char>>
    decreases s.len(),
{
    if s.len() == 0 {
        seq![]
    } else {
        let k = run_until(s, is_char('\n'));
        proof {
            lemma_run_until(s, is_char('\n'));
        }
        if k == s.len() {
            seq![s]
        } else {
            seq![strip_cr(s.take(k))] + lines(s.skip(k + 1))
        }
    }
}

/// `str::lines`, collected.
pub fn lines_chars(v: &[char]) -> (r: Vec<Vec<char>>)
    ensures
        r.deep_view() == lines(v@),
{
    let mut r: Vec<Vec<char>> = Vec::new();
    let mut i: usize = 0;
    assert(v@.skip(0) =~= v@);
    while i < v.len()
        invariant
            i <= v@.len(),
            lines(v@) == r.deep_view() + lines(v@.skip(i as int)),
        decreases v@.len() - i,
    {
        let k = find_from(v, i, '\n');
        let ghost s = v@.skip(i as int);
        let ghost old_dv = r.deep_view();
        if k == v.len() {
            let line = slice_of(v, i, k);
            assert(line@ =~= s);
            r.push(line);
            assert(r.deep_view() =~~= old_dv.push(line@));
            assert(v@.skip(k as int) =~= seq![]);
            assert(old_dv + seq![s] =~= old_dv.push(s));
            i = k;
        } else {
            let end = if k > i && v[k - 1] == '\r' {
                k - 1
            } else {
                k
            };
            let line = slice_of(v, i, end);
            proof {
                assert(s.take(k - i) =~= v@.subrange(i as int, k as int));
                assert(line@ =~= strip_cr(s.take(k - i)));
                assert(s.skip(k - i + 1) =~= v@.skip(k + 1));
                assert(old_dv.push(line@) + lines(v@.skip(k + 1)) =~= old_dv + (seq![line@] + lines(
                    v@.skip(k + 1),
                )));
            }
            r.push(line);
            assert(r.deep_view() =~~= old_dv.push(line@));
            i = k + 1;
        }
    }
    assert(lines(v@.skip(i as int)) =~= seq![]);
    assert(r.deep_view() + seq![] =~= r.deep_view());
    r
}


// ---------------------------------------------------------------------------
// Decimal numbers
// ---------------------------------------------------------------------------

pub open spec fn is_digit(c: char) -> bool {
    '0' <= c <= '9'
}

pub open spec fn digit_value(c: char) -> int {
    c as int - '0' as int
}

/// The character of the decimal digit `d`.
pub open spec fn digit_char(d: int) -> char {
    (d + '0' as int) as char
}

pub open spec fn all_digits(s: Seq<char>) -> bool {
    forall|i: int| 0 <= i < s.len() ==> is_digit(#[trigger] s[i])
}

/// The number written by the decimal digits `s`.
pub open spec fn digits_value(s: Seq<char>) -> int
    decreases s.len(),
{
    if s.len() == 0 {
        0
    } else {
        digits_value(s.drop_last()) * 10 + digit_value(s.last())
    }
}

/// `FromStr` for an unsigned integer type whose largest value is `max`:
/// an optional `'+'`, then one or more decimal digits, in range.
pub open spec fn parse_unsigned(s: Seq<char>, max: int) -> Option<int> {
    let d = if s.len() > 0 && s[0] == '+' {
        s.drop_first()
    } else {
        s
    };
    if d.len() > 0 && all_digits(d) && digits_value(d) <= max {
        Some(digits_value(d))
    } else {
        None
    }
}

/// `FromStr` for a signed integer type with range `min..=max`: an optional
/// `'+'` or `'-'`, then one or more decimal digits, in range.
pub open spec fn parse_signed(s: Seq<char>, min: int, max: int) -> Option<int> {
    if s.len() > 0 && s[0] == '-' {
        let d = s.drop_first();
        if d.len() > 0 && all_digits(d) && -digits_value(d) >= min {
            Some(-digits_value(d))
        } else {
            None
        }
    } else {
        parse_unsigned(s, max)
    }
}

/// `u32::from_str`.
pub open spec fn parse_u32(s: Seq<char>) -> Option<u32> {
    match parse_unsigned(s, u32::MAX as int) {
        Some(n) => Some(n as u32),
        None => None,
    }
}

/// `i32::from_str`.
pub open spec fn parse_i32(s: Seq<char>) -> Option<i32> {
    match parse_signed(s, i32::MIN as int, i32::MAX as int) {
        Some(n) => Some(n as i32),
        None => None,
    }
}

pub proof fn lemma_digits_value_nonneg(s: Seq<char>)
    requires
        all_digits(s),
    ensures
        digits_value(s) >= 0,
    decreases s.len(),
{
    if s.len() > 0 {
        assert(is_digit(s[s.len() - 1]));
        lemma_digits_value_nonneg(s.drop_last());
    }
}

/// A prefix of a digit string never has a larger value.
pub proof fn lemma_digits_value_prefix(s: Seq<char>, k: int)
    requires
        all_digits(s),
        0 <= k <= s.len(),
    ensures
        digits_value(s.take(k)) <= digits_value(s),
    decreases s.len(),
{
    if k < s.len() {
        assert(s.drop_last().take(k) =~= s.take(k));
        lemma_digits_value_prefix(s.drop_last(), k);
        lemma_digits_value_nonneg(s.drop_last());
        assert(is_digit(s[s.len() - 1]));
    } else {
        assert(s.take(k) =~= s);
    }
}

/// The value of the digits `v[a..b]`, when it is at most `max`.
fn digits_upto(v: &[char], a: usize, b: usize, max: u64) -> (r: Option<u64>)
    requires
        a <= b <= v@.len(),
        max <= u32::MAX,
    ensures
        match r {
            Some(n) => all_digits(v@.subrange(a as int, b as int)) && digits_value(
                v@.subrange(a as int, b as int),
            ) == n && n <= max,
            None => !(all_digits(v@.subrange(a as int, b as int)) && digits_value(
                v@.subrange(a as int, b as int),
            ) <= max),
        },
{
    let mut acc: u64 = 0;
    let mut i = a;
    while i < b
        invariant
            a <= i <= b <= v@.len(),
            max <= u32::MAX,
            all_digits(v@.subrange(a as int, i as int)),
            digits_value(v@.subrange(a as int, i as int)) == acc,
            acc <= max,
        decreases b - i,
    {
        let c = v[i];
        let ghost pre = v@.subrange(a as int, i as int);
        let ghost cur = v@.subrange(a as int, i + 1);
        assert(cur.drop_last() =~= pre);
        if !('0' <= c && c <= '9') {
            assert(!is_digit(v@.subrange(a as int, b as int)[i - a]));
            return None;
        }
        let d = (c as u32 - '0' as u32) as u64;
        assert(d == digit_value(c));
        acc = acc * 10 + d;
        if acc > max {
            proof {
                let whole = v@.subrange(a as int, b as int);
                if all_digits(whole) {
                    assert(whole.take(i + 1 - a) =~= cur);
                    lemma_digits_value_prefix(whole, i + 1 - a);
                }
            }
            return None;
        }
        i += 1;
    }
    Some(acc)
}

/// `parse_unsigned` over `v[a..b]`.
fn parse_unsigned_range(v: &[char], a: usize, b: usize, max: u64) -> (r: Option<u64>)
    requires
        a <= b <= v@.len(),
        max <= u32::MAX,
    ensures
        match r {
            Some(n) => parse_unsigned(v@.subrange(a as int, b as int), max as int) == Some(
                n as int,
            ),
            None => parse_unsigned(v@.subrange(a as int, b as int), max as int) is None,
        },
{
    let ghost s = v@.subrange(a as int, b as int);
    let start = if a < b && v[a] == '+' {
        assert(s.drop_first() =~= v@.subrange(a + 1, b as int));
        a + 1
    } else {
        a
    };
    if start == b {
        return None;
    }
    digits_upto(v, start, b, max)
}

/// `u32::from_str` on the characters `v`.
pub fn parse_u32_chars(v: &[char]) -> (r: Option<u32>)
    ensures
        r == parse_u32(v@),
{
    assert(v@.subrange(0, v@.len() as int) =~= v@);
    match parse_unsigned_range(v, 0, v.len(), 0xffff_ffff) {
        Some(n) => Some(n as u32),
        None => None,
    }
}

/// `i32::from_str` on the characters `v`.
pub fn parse_i32_chars(v: &[char]) -> (r: Option<i32>)
    ensures
        r == parse_i32(v@),
{
    assert(v@.subrange(0, v@.len() as int) =~= v@);
    if v.len() > 0 && v[0] == '-' {
        if v.len() == 1 {
            return None;
        }
        assert(v@.drop_first() =~= v@.subrange(1, v@.len() as int));
        match digits_upto(v, 1, v.len(), 0x8000_0000) {
            Some(n) => {
                let r = if n == 0x8000_0000 {
                    i32::MIN
                } else {
                    -(n as i32)
                };
                Some(r)
            },
            None => None,
        }
    } else {
        match parse_unsigned_range(v, 0, v.len(), 0x7fff_ffff) {
            Some(n) => Some(n as i32),
            None => None,
        }
    }
}

/// The decimal digits of `n`, without leading zeros.
pub open spec fn decimal(n: nat) -> Seq<char>
    decreases n,
{
    if n < 10 {
        seq![digit_char(n as int)]
    } else {
        decimal(n / 10).push(digit_char((n % 10) as int))
    }
}

/// `{}` of a signed integer: a `'-'` then the digits of its magnitude.
pub open spec fn signed_decimal(n: int) -> Seq<char> {
    if n < 0 {
        seq!['-'] + decimal((-n) as nat)
    } else {
        decimal(n as nat)
    }
}

/// `{:0w}` of a non-negative integer: its digits, left-padded with zeros to
/// at least `w` characters.
pub open spec fn zero_padded(n: nat, w: nat) -> Seq<char> {
    let d = decimal(n);
    if d.len() < w {
        Seq::new((w - d.len()) as nat, |_i: int| '0') + d
    } else {
        d
    }
}

pub proof fn lemma_decimal(n: nat)
    ensures
        decimal(n).len() > 0,
        all_digits(decimal(n)),
        digits_value(decimal(n)) == n,
    decreases n,
{
    if n >= 10 {
        lemma_decimal(n / 10);
        let d = decimal(n);
        assert(d.drop_last() =~= decimal(n / 10));
        let k = (n % 10) as int;
        assert(digit_value(digit_char(k)) == k);
        assert(n == (n / 10) * 10 + k);
        assert(d.last() == digit_char(k));
        assert(digits_value(d) == digits_value(d.drop_last()) * 10 + digit_value(d.last()));
        assert forall|i: int| 0 <= i < d.len() implies is_digit(#[trigger] d[i]) by {
            if i < d.len() - 1 {
                assert(d[i] == decimal(n / 10)[i]);
            }
        }
    } else {
        let d = decimal(n);
        assert(d.drop_last() =~= Seq::<char>::empty());
        assert(digit_value(digit_char(n as int)) == n);
        assert(digits_value(d) == digits_value(d.drop_last()) * 10 + digit_value(d.last()));
    }
}

/// A number below `10^k` has at most `k` digits.
pub proof fn lemma_decimal_len_bound(n: nat, k: nat)
    requires
        k >= 1,
        n < pow10(k),
    ensures
        decimal(n).len() <= k,
    decreases k,
{
    if n >= 10 {
        reveal_with_fuel(pow10, 2);
        assert(k > 1);
        let p = pow10((k - 1) as nat);
        assert(n / 10 < p) by (nonlinear_arith)
            requires
                n < 10 * p,
        ;
        lemma_decimal_len_bound(n / 10, (k - 1) as nat);
    }
}

pub open spec fn pow10(k: nat) -> nat
    decreases k,
{
    if k == 0 {
        1
    } else {
        10 * pow10((k - 1) as nat)
    }
}


/// The last `w` decimal digits of `n`, most significant first.
pub open spec fn fixed_digits(n: nat, w: nat) -> Seq<char>
    decreases w,
{
    if w == 0 {
        seq![]
    } else {
        fixed_digits(n / 10, (w - 1) as nat).push(digit_char((n % 10) as int))
    }
}

proof fn lemma_fixed_zero(w: nat)
    ensures
        fixed_digits(0, w) == Seq::new(w, |_i: int| '0'),
    decreases w,
{
    if w > 0 {
        lemma_fixed_zero((w - 1) as nat);
        assert(fixed_digits(0, w) =~= Seq::new(w, |_i: int| '0'));
    }
}

/// Zero padding to `w` places writes the `w` digits of a number below
/// `10^w`.
pub proof fn lemma_zero_padded_fixed(n: nat, w: nat)
    requires
        w >= 1,
        n < pow10(w),
    ensures
        zero_padded(n, w) == fixed_digits(n, w),
    decreases w,
{
    reveal_with_fuel(pow10, 2);
    if n < 10 {
        lemma_fixed_zero((w - 1) as nat);
        assert(decimal(n) =~= seq![digit_char(n as int)]);
        assert(zero_padded(n, w) =~= fixed_digits(n, w));
    } else {
        assert(w > 1);
        let p = pow10((w - 1) as nat);
        assert(n / 10 < p) by (nonlinear_arith)
            requires
                n < 10 * p,
        ;
        lemma_zero_padded_fixed(n / 10, (w - 1) as nat);
        lemma_decimal_len_bound(n, w);
        assert(zero_padded(n, w) =~= zero_padded(n / 10, (w - 1) as nat).push(
            digit_char((n % 10) as int),
        ));
    }
}

/// `a + b` before `c` in text order, strictly.
pub open spec fn text_lt(a: Seq<char>, b: Seq<char>) -> bool {
    text_le(a, b) && a != b
}

/// A shared prefix does not change the order.
pub proof fn lemma_text_le_prefix(p: Seq<char>, a: Seq<char>, b: Seq<char>)
    ensures
        text_le(p + a, p + b) == text_le(a, b),
    decreases p.len(),
{
    if p.len() > 0 {
        assert((p + a).drop_first() =~= p.drop_first() + a);
        assert((p + b).drop_first() =~= p.drop_first() + b);
        lemma_text_le_prefix(p.drop_first(), a, b);
    } else {
        assert(p + a =~= a);
        assert(p + b =~= b);
    }
}

/// Texts of one length that differ decide the order of anything that
/// follows them.
pub proof fn lemma_text_le_split(a1: Seq<char>, a2: Seq<char>, b1: Seq<char>, b2: Seq<char>)
    requires
        a1.len() == a2.len(),
        a1 != a2,
    ensures
        text_le(a1 + b1, a2 + b2) == text_le(a1, a2),
    decreases a1.len(),
{
    if a1.len() == 0 {
        assert(a1 =~= a2);
    } else if a1[0] != a2[0] {
        assert((a1 + b1)[0] == a1[0]);
        assert((a2 + b2)[0] == a2[0]);
    } else {
        assert((a1 + b1).drop_first() =~= a1.drop_first() + b1);
        assert((a2 + b2).drop_first() =~= a2.drop_first() + b2);
        assert(a1.drop_first() != a2.drop_first()) by {
            if a1.drop_first() == a2.drop_first() {
                assert forall|i: int| 0 <= i < a1.len() implies a1[i] == a2[i] by {
                    if i > 0 {
                        assert(a1[i] == a1.drop_first()[i - 1]);
                        assert(a2[i] == a2.drop_first()[i - 1]);
                    }
                }
                assert(a1 =~= a2);
            }
        }
        lemma_text_le_split(a1.drop_first(), a2.drop_first(), b1, b2);
    }
}

/// Chunk-wise order: the first chunks decide, or, when equal, the rest.
pub proof fn lemma_text_lt_concat(a1: Seq<char>, a2: Seq<char>, b1: Seq<char>, b2: Seq<char>)
    requires
        a1.len() == a2.len(),
        text_lt(a1, a2) || (a1 == a2 && text_lt(b1, b2)),
    ensures
        text_lt(a1 + b1, a2 + b2),
{
    if a1 != a2 {
        lemma_text_le_split(a1, a2, b1, b2);
        assert((a1 + b1).take(a1.len() as int) =~= a1);
        assert((a2 + b2).take(a2.len() as int) =~= a2);
    } else {
        lemma_text_le_prefix(a1, b1, b2);
        assert((a1 + b1).skip(a1.len() as int) =~= b1);
        assert((a2 + b2).skip(a2.len() as int) =~= b2);
    }
}

/// Fixed-width digits order as the numbers do.
pub proof fn lemma_fixed_digits_order(n1: nat, n2: nat, w: nat)
    requires
        n1 < n2 < pow10(w),
    ensures
        text_lt(fixed_digits(n1, w), fixed_digits(n2, w)),
        fixed_digits(n1, w).len() == w,
    decreases w,
{
    reveal_with_fuel(pow10, 2);
    lemma_fixed_len(n1, w);
    lemma_fixed_len(n2, w);
    if w == 0 {
        assert(false);
    } else {
        let p = pow10((w - 1) as nat);
        let a1 = fixed_digits(n1 / 10, (w - 1) as nat);
        let a2 = fixed_digits(n2 / 10, (w - 1) as nat);
        let x = digit_char((n1 % 10) as int);
        let y = digit_char((n2 % 10) as int);
        assert(n2 / 10 < p) by (nonlinear_arith)
            requires
                n2 < 10 * p,
        ;
        assert(fixed_digits(n1, w) == a1 + seq![x]);
        assert(fixed_digits(n2, w) == a2 + seq![y]);
        if n1 / 10 < n2 / 10 {
            lemma_fixed_digits_order(n1 / 10, n2 / 10, (w - 1) as nat);
        } else {
            assert(n1 / 10 == n2 / 10);
            assert(n1 % 10 < n2 % 10);
            assert(x != y);
            assert(text_le(seq![x], seq![y])) by {
                assert(seq![x][0] == x);
                assert(seq![y][0] == y);
            }
            assert(seq![x] != seq![y]) by {
                assert(seq![x][0] != seq![y][0]);
            }
        }
        lemma_text_lt_concat(a1, a2, seq![x], seq![y]);
    }
}

/// Fixed-width digits are `w` characters long.
pub proof fn lemma_fixed_len(n: nat, w: nat)
    ensures
        fixed_digits(n, w).len() == w,
    decreases w,
{
    if w > 0 {
        lemma_fixed_len(n / 10, (w - 1) as nat);
    }
}

/// A number's decimal text parses back to it.
pub proof fn lemma_parse_u32_decimal(n: u32)
    ensures
        parse_u32(decimal(n as nat)) == Some(n),
{
    lemma_decimal(n as nat);
    let d = decimal(n as nat);
    assert(is_digit(d[0]));
}

/// A signed number's decimal text parses back to it.
pub proof fn lemma_parse_i32_decimal(n: i32)
    ensures
        parse_i32(signed_decimal(n as int)) == Some(n),
{
    if n < 0 {
        let m = (-(n as int)) as nat;
        lemma_decimal(m);
        let s = signed_decimal(n as int);
        assert(s.drop_first() =~= decimal(m));
    } else {
        lemma_decimal(n as nat);
        let d = decimal(n as nat);
        assert(is_digit(d[0]));
    }
}

/// Appends the decimal digits of `n` to `out`.
pub fn push_decimal(out: &mut Vec<char>, n: u64)
    ensures
        final(out)@ == old(out)@ + decimal(n as nat),
    decreases n,
{
    if n >= 10 {
        push_decimal(out, n / 10);
    }
    let d = (n % 10) as u32;
    let c = char_from_digit(d);
    out.push(c);
    proof {
        if n >= 10 {
            assert(old(out)@ + decimal((n / 10) as nat) + seq![c] =~= old(out)@ + decimal(
                n as nat,
            ));
        } else {
            assert(old(out)@.push(c) =~= old(out)@ + decimal(n as nat));
        }
    }
}

/// The character of the decimal digit `d`.
pub fn char_from_digit(d: u32) -> (c: char)
    requires
        d < 10,
    ensures
        c == digit_char(d as int),
        is_digit(c),
{
    let c = if d == 0 {
        '0'
    } else if d == 1 {
        '1'
    } else if d == 2 {
        '2'
    } else if d == 3 {
        '3'
    } else if d == 4 {
        '4'
    } else if d == 5 {
        '5'
    } else if d == 6 {
        '6'
    } else if d == 7 {
        '7'
    } else if d == 8 {
        '8'
    } else {
        '9'
    };
    c
}

/// Appends `{}` of the signed integer `n` to `out`.
pub fn push_signed(out: &mut Vec<char>, n: i64)
    ensures
        final(out)@ == old(out)@ + signed_decimal(n as int),
{
    if n < 0 {
        out.push('-');
        let m: u64 = if n == i64::MIN {
            0x8000_0000_0000_0000
        } else {
            (-n) as u64
        };
        push_decimal(out, m);
        assert(old(out)@.push('-') + decimal(m as nat) =~= old(out)@ + signed_decimal(n as int));
    } else {
        push_decimal(out, n as u64);
    }
}

/// Appends `{:0w}` of `n` to `out`.
pub fn push_zero_padded(out: &mut Vec<char>, n: u64, w: usize)
    ensures
        final(out)@ == old(out)@ + zero_padded(n as nat, w as nat),
{
    let mut digits: Vec<char> = Vec::new();
    push_decimal(&mut digits, n);
    assert(digits@ =~= decimal(n as nat));
    if digits.len() < w {
        let pad = w - digits.len();
        let mut i: usize = 0;
        while i < pad
            invariant
                i <= pad,
                out@ == old(out)@ + Seq::new(i as nat, |_i: int| '0'),
            decreases pad - i,
        {
            out.push('0');
            assert(old(out)@ + Seq::new(i as nat, |_i: int| '0') + seq!['0'] =~= old(out)@
                + Seq::new((i + 1) as nat, |_i: int| '0'));
            i += 1;
        }
        let ghost before = out@;
        push_all(out, &digits);
        assert(before + digits@ =~= old(out)@ + zero_padded(n as nat, w as nat));
    } else {
        push_all(out, &digits);
    }
}


/// Splitting at the first `c` of `a + [c] + b`, where `a` holds no `c`,
/// gives back `a` and `b`.
pub proof fn lemma_split_once_concat(a: Seq<char>, c: char, b: Seq<char>)
    requires
        forall|i: int| 0 <= i < a.len() ==> #[trigger] a[i] != c,
    ensures
        split_once(a + seq![c] + b, c) == Some((a, b)),
{
    let s = a + seq![c] + b;
    assert forall|j: int| 0 <= j < a.len() implies !(is_char(c))(#[trigger] s[j]) by {
        assert(s[j] == a[j]);
    }
    lemma_run_until_at(s, is_char(c), a.len() as int);
    assert(s.take(a.len() as int) =~= a);
    assert(s.skip(a.len() as int + 1) =~= b);
}


// ---------------------------------------------------------------------------
// Substitution
// ---------------------------------------------------------------------------

/// `str::replace(pat, rep)`: every occurrence of `pat`, found left to right
/// without overlap, replaced by `rep`.
pub open spec fn replace_all(s: Seq<char>, pat: Seq<char>, rep: Seq<char>) -> Seq<char>
    decreases s.len(),
{
    if pat.len() == 0 || s.len() == 0 {
        s
    } else if starts_with(s, pat) {
        rep + replace_all(s.skip(pat.len() as int), pat, rep)
    } else {
        seq![s[0]] + replace_all(s.drop_first(), pat, rep)
    }
}

/// `str::replace(pat, rep)` for a non-empty pattern.
pub fn replace_chars(v: &[char], pat: &[char], rep: &[char]) -> (r: Vec<char>)
    requires
        pat@.len() > 0,
    ensures
        r@ == replace_all(v@, pat@, rep@),
{
    let mut out: Vec<char> = Vec::new();
    let mut i: usize = 0;
    assert(v@.skip(0) =~= v@);
    while i < v.len()
        invariant
            i <= v@.len(),
            pat@.len() > 0,
            replace_all(v@, pat@, rep@) == out@ + replace_all(v@.skip(i as int), pat@, rep@),
        decreases v@.len() - i,
    {
        let ghost s = v@.skip(i as int);
        let ghost before = out@;
        if matches_at(v, i, pat) {
            push_all(&mut out, rep);
            assert(s.skip(pat@.len() as int) =~= v@.skip(i + pat@.len()));
            assert(before + (rep@ + replace_all(s.skip(pat@.len() as int), pat@, rep@)) =~= out@
                + replace_all(v@.skip(i + pat@.len()), pat@, rep@));
            i += pat.len();
        } else {
            out.push(v[i]);
            assert(s.drop_first() =~= v@.skip(i + 1));
            assert(before + (seq![s[0]] + replace_all(s.drop_first(), pat@, rep@)) =~= out@
                + replace_all(v@.skip(i + 1), pat@, rep@));
            i += 1;
        }
    }
    assert(replace_all(v@.skip(i as int), pat@, rep@) =~= seq![]);
    assert(out@ + seq![] =~= out@);
    out
}

/// `str::eq_ignore_ascii_case`: equal after mapping ASCII letters to one case.
pub open spec fn ascii_lower(c: char) -> char {
    if 'A' <= c <= 'Z' {
        ((c as int) + 32) as char
    } else {
        c
    }
}

pub open spec fn eq_ignore_ascii_case(a: Seq<char>, b: Seq<char>) -> bool {
    a.len() == b.len() && forall|i: int| 0 <= i < a.len() ==> ascii_lower(#[trigger] a[i])
        == ascii_lower(b[i])
}

fn ascii_lower_exec(c: char) -> (r: char)
    ensures
        r == ascii_lower(c),
{
    if 'A' <= c && c <= 'Z' {
        let u = c as u32 + 32;
        let r = char_from_u32_ascii(u);
        r
    } else {
        c
    }
}

/// The ASCII character with code `u`.
fn char_from_u32_ascii(u: u32) -> (c: char)
    requires
        u < 128,
    ensures
        c as int == u,
{
    let b = u as u8;
    b as char
}

/// `str::eq_ignore_ascii_case`.
pub fn eq_ignore_ascii_case_chars(a: &[char], b: &str) -> (r: bool)
    ensures
        r == eq_ignore_ascii_case(a@, b@),
{
    let bc = chars_of(b);
    if a.len() != bc.len() {
        return false;
    }
    let mut i: usize = 0;
    while i < a.len()
        invariant
            a@.len() == bc@.len(),
            bc@ == b@,
            i <= a@.len(),
            forall|j: int| 0 <= j < i ==> ascii_lower(#[trigger] a@[j]) == ascii_lower(bc@[j]),
        decreases a@.len() - i,
    {
        if ascii_lower_exec(a[i]) != ascii_lower_exec(bc[i]) {
            return false;
        }
        i += 1;
    }
    true
}


// ---------------------------------------------------------------------------
// Ordering
// ---------------------------------------------------------------------------

/// `a <= b` in the order of `str` (lexicographic by character; UTF-8 byte
/// order is code point order).
pub open spec fn text_le(a: Seq<char>, b: Seq<char>) -> bool
    decreases a.len(),
{
    if a.len() == 0 {
        true
    } else if b.len() == 0 {
        false
    } else if a[0] != b[0] {
        (a[0] as int) < (b[0] as int)
    } else {
        text_le(a.drop_first(), b.drop_first())
    }
}

pub proof fn lemma_text_le_total(a: Seq<char>, b: Seq<char>)
    ensures
        text_le(a, b) || text_le(b, a),
    decreases a.len(),
{
    if a.len() > 0 && b.len() > 0 {
        if a[0] == b[0] {
            lemma_text_le_total(a.drop_first(), b.drop_first());
        } else {
            assert((a[0] as int) != (b[0] as int));
        }
    }
}

pub proof fn lemma_text_le_trans(a: Seq<char>, b: Seq<char>, c: Seq<char>)
    requires
        text_le(a, b),
        text_le(b, c),
    ensures
        text_le(a, c),
    decreases a.len(),
{
    if a.len() > 0 && b.len() > 0 && c.len() > 0 && a[0] == b[0] && b[0] == c[0] {
        lemma_text_le_trans(a.drop_first(), b.drop_first(), c.drop_first());
    }
}

/// `a <= b` for two texts.
pub fn text_le_exec(a: &String, b: &String) -> (r: bool)
    ensures
        r == text_le(a@, b@),
{
    let x = chars_of(a.as_str());
    let y = chars_of(b.as_str());
    let mut i: usize = 0;
    assert(x@.skip(0) =~= x@ && y@.skip(0) =~= y@);
    while i < x.len() && i < y.len() && x[i] == y[i]
        invariant
            i <= x@.len(),
            i <= y@.len(),
            text_le(x@, y@) == text_le(x@.skip(i as int), y@.skip(i as int)),
        decreases x@.len() - i,
    {
        assert(x@.skip(i as int).drop_first() =~= x@.skip(i + 1));
        assert(y@.skip(i as int).drop_first() =~= y@.skip(i + 1));
        i += 1;
    }
    if i == x.len() {
        true
    } else if i == y.len() {
        false
    } else {
        assert(x@.skip(i as int)[0] == x@[i as int]);
        assert(y@.skip(i as int)[0] == y@[i as int]);
        x[i] < y[i]
    }
}


/// `str::trim_end`.
pub fn trim_end_chars(v: &[char]) -> (r: Vec<char>)
    ensures
        r@ == trim_end(v@),
{
    let mut b = v.len();
    while b > 0 && is_whitespace(v[b - 1])
        invariant
            b <= v@.len(),
            forall|j: int| b <= j < v@.len() ==> is_ws(#[trigger] v@[j]),
        decreases b,
    {
        b -= 1;
    }
    proof {
        lemma_trim_end_at(v@, b as int);
    }
    assert(v@.take(b as int) =~= v@.subrange(0, b as int));
    slice_of(v, 0, b)
}

/// `n` spaces.
pub open spec fn spaces(n: int) -> Seq<char> {
    Seq::new(if n > 0 {
        n as nat
    } else {
        0
    }, |_i: int| ' ')
}

/// `{:<w}`: `s` followed by spaces up to `w` characters.
pub open spec fn pad_right(s: Seq<char>, w: int) -> Seq<char> {
    s + spaces(w - s.len())
}

/// `{:>w}`: spaces up to `w` characters, then `s`.
pub open spec fn pad_left(s: Seq<char>, w: int) -> Seq<char> {
    spaces(w - s.len()) + s
}

/// Appends `n` spaces to `out`.
pub fn push_spaces(out: &mut Vec<char>, n: usize)
    ensures
        final(out)@ == old(out)@ + spaces(n as int),
{
    let mut i: usize = 0;
    while i < n
        invariant
            i <= n,
            out@ == old(out)@ + spaces(i as int),
        decreases n - i,
    {
        out.push(' ');
        assert(old(out)@ + spaces(i as int) + seq![' '] =~= old(out)@ + spaces(i + 1));
        i += 1;
    }
}

/// Appends `{:<w}` of `s` to `out`.
pub fn push_padded_right(out: &mut Vec<char>, s: &[char], w: usize)
    ensures
        final(out)@ == old(out)@ + pad_right(s@, w as int),
{
    push_all(out, s);
    let n = if s.len() < w {
        w - s.len()
    } else {
        0
    };
    push_spaces(out, n);
    assert(spaces(n as int) =~= spaces(w - s@.len()));
    assert(old(out)@ + s@ + spaces(n as int) =~= old(out)@ + pad_right(s@, w as int));
}

/// Appends `{:>w}` of `s` to `out`.
pub fn push_padded_left(out: &mut Vec<char>, s: &[char], w: usize)
    ensures
        final(out)@ == old(out)@ + pad_left(s@, w as int),
{
    let n = if s.len() < w {
        w - s.len()
    } else {
        0
    };
    push_spaces(out, n);
    assert(spaces(n as int) =~= spaces(w - s@.len()));
    push_all(out, s);
    assert(old(out)@ + spaces(n as int) + s@ =~= old(out)@ + pad_left(s@, w as int));
}

} // verus!
