//! Character-level text model: Unicode white space, trimming, line
//! splitting, and conversions between `str`, `String` and `Vec<char>`.
use vstd::prelude::*;

verus! {

/// The Unicode `White_Space` property (the set `char::is_whitespace`,
/// `str::trim` and the regex class `\s` are defined by).
pub open spec fn is_white_space(c: char) -> bool {
    let u = c as u32;
    ||| (0x09 <= u && u <= 0x0d)
    ||| u == 0x20
    ||| u == 0x85
    ||| u == 0xa0
    ||| u == 0x1680
    ||| (0x2000 <= u && u <= 0x200a)
    ||| u == 0x2028
    ||| u == 0x2029
    ||| u == 0x202f
    ||| u == 0x205f
    ||| u == 0x3000
}

pub fn white_space(c: char) -> (b: bool)
    ensures
        b == is_white_space(c),
{
    let u = c as u32;
    (0x09 <= u && u <= 0x0d) || u == 0x20 || u == 0x85 || u == 0xa0 || u == 0x1680 || (0x2000
        <= u && u <= 0x200a) || u == 0x2028 || u == 0x2029 || u == 0x202f || u == 0x205f || u
        == 0x3000
}

/// `s` with leading white space removed.
pub open spec fn trim_start(s: Seq<char>) -> Seq<char>
    decreases s.len(),
{
    if s.len() > 0 && is_white_space(s[0]) {
        trim_start(s.drop_first())
    } else {
        s
    }
}

/// `s` with trailing white space removed.
pub open spec fn trim_end(s: Seq<char>) -> Seq<char>
    decreases s.len(),
{
    if s.len() > 0 && is_white_space(s.last()) {
        trim_end(s.drop_last())
    } else {
        s
    }
}

/// `s` with leading and trailing white space removed, as `str::trim` does.
pub open spec fn trim(s: Seq<char>) -> Seq<char> {
    trim_end(trim_start(s))
}

/// The characters of `s` in order.
pub fn chars_of(s: &str) -> (v: Vec<char>)
    ensures
        v@ == s@,
{
    broadcast use vstd::string::axiom_spec_iter;

    let mut v: Vec<char> = Vec::new();
    for c in it: s.chars()
        invariant
            it.seq() == s@,
            v@ == s@.take(it.index() as int),
    {
        v.push(c);
    }
    assert(v@ =~= s@);
    v
}

/// Builds a `String` from its characters, by `String::from_iter`.
#[verifier::external_body]
pub(crate) fn string_of(v: &Vec<char>) -> (s: String)
    ensures
        s@ == v@,
{
    v.iter().collect()
}

/// The characters of `v` from `lo` up to `hi`.
pub fn copy_range(v: &Vec<char>, lo: usize, hi: usize) -> (r: Vec<char>)
    requires
        lo <= hi <= v.len(),
    ensures
        r@ == v@.subrange(lo as int, hi as int),
{
    let mut r: Vec<char> = Vec::new();
    let mut i = lo;
    while i < hi
        invariant
            lo <= i <= hi <= v.len(),
            r@ == v@.subrange(lo as int, i as int),
        decreases hi - i,
    {
        r.push(v[i]);
        i = i + 1;
        assert(r@ =~= v@.subrange(lo as int, i as int));
    }
    r
}

proof fn lemma_trim_start_skip(s: Seq<char>, i: int)
    requires
        0 <= i <= s.len(),
        forall|j: int| 0 <= j < i ==> is_white_space(#[trigger] s[j]),
    ensures
        trim_start(s) == trim_start(s.subrange(i, s.len() as int)),
    decreases i,
{
    if i > 0 {
        assert(s.drop_first() =~= s.subrange(1, s.len() as int));
        lemma_trim_start_skip(s.drop_first(), i - 1);
        assert(s.drop_first().subrange(i - 1, s.drop_first().len() as int) =~= s.subrange(
            i,
            s.len() as int,
        ));
    } else {
        assert(s.subrange(0, s.len() as int) =~= s);
    }
}

proof fn lemma_trim_end_take(s: Seq<char>, k: int)
    requires
        0 <= k <= s.len(),
        forall|j: int| k <= j < s.len() ==> is_white_space(#[trigger] s[j]),
    ensures
        trim_end(s) == trim_end(s.subrange(0, k)),
    decreases s.len() - k,
{
    if k < s.len() {
        assert(s.drop_last() =~= s.subrange(0, s.len() - 1));
        lemma_trim_end_take(s.drop_last(), k);
        assert(s.drop_last().subrange(0, k) =~= s.subrange(0, k));
    } else {
        assert(s.subrange(0, k) =~= s);
    }
}

/// `s` without leading and trailing white space.
pub fn trim_chars(s: &Vec<char>) -> (r: Vec<char>)
    ensures
        r@ == trim(s@),
{
    let n = s.len();
    let mut a: usize = 0;
    while a < n && white_space(s[a])
        invariant
            a <= n == s.len(),
            forall|j: int| 0 <= j < a ==> is_white_space(#[trigger] s@[j]),
        decreases n - a,
    {
        a = a + 1;
    }
    proof {
        lemma_trim_start_skip(s@, a as int);
    }
    let ghost t = s@.subrange(a as int, n as int);
    assert(trim_start(t) == t);
    let mut b: usize = n;
    while b > a && white_space(s[b - 1])
        invariant
            a <= b <= n == s.len(),
            t == s@.subrange(a as int, n as int),
            forall|j: int| b <= j < n ==> is_white_space(#[trigger] s@[j]),
        decreases b - a,
    {
        b = b - 1;
    }
    proof {
        let t2 = t;
        assert forall|j: int| (b - a) <= j < t2.len() implies is_white_space(#[trigger] t2[j]) by {
            assert(t2[j] == s@[j + a]);
        }
        lemma_trim_end_take(t2, (b - a) as int);
        assert(t2.subrange(0, (b - a) as int) =~= s@.subrange(a as int, b as int));
        let u = s@.subrange(a as int, b as int);
        if u.len() > 0 {
            assert(u.last() == s@[b - 1]);
        }
    }
    copy_range(s, a, b)
}

/// Index of the first line feed at or after `i` in `s`, or `s.len()`.
pub open spec fn next_newline(s: Seq<char>, i: int) -> int
    decreases s.len() - i,
{
    if i < 0 || i >= s.len() {
        s.len() as int
    } else if s[i] == '\n' {
        i
    } else {
        next_newline(s, i + 1)
    }
}

pub proof fn lemma_next_newline(s: Seq<char>, i: int)
    requires
        0 <= i,
    ensures
        i <= s.len() ==> i <= next_newline(s, i) <= s.len(),
        i > s.len() ==> next_newline(s, i) == s.len(),
        next_newline(s, i) < s.len() ==> s[next_newline(s, i)] == '\n',
        forall|k: int| i <= k < next_newline(s, i) ==> s[k] != '\n',
    decreases s.len() - i,
{
    if i < s.len() && s[i] != '\n' {
        lemma_next_newline(s, i + 1);
    }
}

/// `l` without one trailing carriage return.
pub open spec fn strip_cr(l: Seq<char>) -> Seq<char> {
    if l.len() > 0 && l.last() == '\r' {
        l.drop_last()
    } else {
        l
    }
}

/// The lines of `s` that start at or after `i`, as `str::lines` yields them:
/// split at `\n` or `\r\n`, terminators removed, no final empty line.
pub open spec fn lines_from(s: Seq<char>, i: int) -> Seq<Seq<char>>
    decreases s.len() - i,
{
    if i < 0 || i >= s.len() {
        seq![]
    } else {
        let j = next_newline(s, i);
        proof {
            lemma_next_newline(s, i);
        }
        if j < s.len() {
            seq![strip_cr(s.subrange(i, j))] + lines_from(s, j + 1)
        } else {
            seq![s.subrange(i, j)]
        }
    }
}

/// The lines of `s` (`str::lines`).
pub open spec fn lines(s: Seq<char>) -> Seq<Seq<char>> {
    lines_from(s, 0)
}

/// Index of the first line feed at or after `i`, or `v.len()`.
pub fn find_newline(v: &Vec<char>, i: usize) -> (j: usize)
    requires
        i <= v.len(),
    ensures
        j == next_newline(v@, i as int),
{
    let mut j = i;
    while j < v.len() && v[j] != '\n'
        invariant
            i <= j <= v.len(),
            next_newline(v@, j as int) == next_newline(v@, i as int),
        decreases v.len() - j,
    {
        proof {
            assert(next_newline(v@, j as int) == next_newline(v@, j + 1));
        }
        j = j + 1;
    }
    j
}

/// The character sequences held by a vector of character vectors.
pub open spec fn seq_views(r: Seq<Vec<char>>) -> Seq<Seq<char>> {
    r.map_values(|l: Vec<char>| l@)
}

/// The lines of `v`, as `str::lines` splits them.
pub fn split_lines(v: &Vec<char>) -> (r: Vec<Vec<char>>)
    ensures
        seq_views(r@) == lines(v@),
{
    let n = v.len();
    let mut r: Vec<Vec<char>> = Vec::new();
    let mut i: usize = 0;
    while i < n
        invariant
            n == v.len(),
            i <= n,
            seq_views(r@) + lines_from(v@, i as int) == lines(v@),
        decreases n - i,
    {
        let j = find_newline(v, i);
        proof {
            lemma_next_newline(v@, i as int);
        }
        let ghost before = seq_views(r@);
        if j < n {
            let mut line = copy_range(v, i, j);
            if j > i && v[j - 1] == '\r' {
                line.pop();
                assert(line@ =~= strip_cr(v@.subrange(i as int, j as int)));
            }
            assert(line@ == strip_cr(v@.subrange(i as int, j as int)));
            r.push(line);
            assert(seq_views(r@) =~= before + seq![line@]);
            assert(seq_views(r@) + lines_from(v@, j + 1) =~= before + lines_from(v@, i as int));
            i = j + 1;
        } else {
            let line = copy_range(v, i, j);
            r.push(line);
            assert(seq_views(r@) =~= before + seq![line@]);
            assert(lines_from(v@, j as int) =~= seq![]);
            assert(seq_views(r@) + lines_from(v@, j as int) =~= before + lines_from(
                v@,
                i as int,
            ));
            i = j;
        }
    }
    assert(seq_views(r@) =~= seq_views(r@) + lines_from(v@, i as int));
    r
}

/// `s` without its leading copies of `c`.
pub open spec fn strip_start(s: Seq<char>, c: char) -> Seq<char>
    decreases s.len(),
{
    if s.len() > 0 && s[0] == c {
        strip_start(s.drop_first(), c)
    } else {
        s
    }
}

/// `s` without its trailing copies of `c`.
pub open spec fn strip_end(s: Seq<char>, c: char) -> Seq<char>
    decreases s.len(),
{
    if s.len() > 0 && s.last() == c {
        strip_end(s.drop_last(), c)
    } else {
        s
    }
}

proof fn lemma_strip_start_skip(s: Seq<char>, c: char, i: int)
    requires
        0 <= i <= s.len(),
        forall|j: int| 0 <= j < i ==> #[trigger] s[j] == c,
    ensures
        strip_start(s, c) == strip_start(s.subrange(i, s.len() as int), c),
    decreases i,
{
    if i > 0 {
        assert(s.drop_first() =~= s.subrange(1, s.len() as int));
        lemma_strip_start_skip(s.drop_first(), c, i - 1);
        assert(s.drop_first().subrange(i - 1, s.drop_first().len() as int) =~= s.subrange(
            i,
            s.len() as int,
        ));
    } else {
        assert(s.subrange(0, s.len() as int) =~= s);
    }
}

proof fn lemma_strip_end_take(s: Seq<char>, c: char, k: int)
    requires
        0 <= k <= s.len(),
        forall|j: int| k <= j < s.len() ==> #[trigger] s[j] == c,
    ensures
        strip_end(s, c) == strip_end(s.subrange(0, k), c),
    decreases s.len() - k,
{
    if k < s.len() {
        assert(s.drop_last() =~= s.subrange(0, s.len() - 1));
        lemma_strip_end_take(s.drop_last(), c, k);
        assert(s.drop_last().subrange(0, k) =~= s.subrange(0, k));
    } else {
        assert(s.subrange(0, k) =~= s);
    }
}

/// `s` without the copies of `c` at either end (`str::trim_matches(c)`).
pub fn strip_char(s: &Vec<char>, c: char) -> (r: Vec<char>)
    ensures
        r@ == strip_end(strip_start(s@, c), c),
{
    let n = s.len();
    let mut a: usize = 0;
    while a < n && s[a] == c
        invariant
            a <= n == s.len(),
            forall|j: int| 0 <= j < a ==> #[trigger] s@[j] == c,
        decreases n - a,
    {
        a = a + 1;
    }
    proof {
        lemma_strip_start_skip(s@, c, a as int);
    }
    let ghost t = s@.subrange(a as int, n as int);
    assert(strip_start(t, c) == t);
    let mut b: usize = n;
    while b > a && s[b - 1] == c
        invariant
            a <= b <= n == s.len(),
            t == s@.subrange(a as int, n as int),
            forall|j: int| b <= j < n ==> #[trigger] s@[j] == c,
        decreases b - a,
    {
        b = b - 1;
    }
    proof {
        assert forall|j: int| (b - a) <= j < t.len() implies #[trigger] t[j] == c by {
            assert(t[j] == s@[j + a]);
        }
        lemma_strip_end_take(t, c, (b - a) as int);
        assert(t.subrange(0, (b - a) as int) =~= s@.subrange(a as int, b as int));
        let u = s@.subrange(a as int, b as int);
        if u.len() > 0 {
            assert(u.last() == s@[b - 1]);
        }
    }
    copy_range(s, a, b)
}

/// The first index at or after `i` where `c` occurs in `s`, or `s.len()`.
pub open spec fn next_index_of(s: Seq<char>, i: int, c: char) -> int
    decreases s.len() - i,
{
    if i < 0 || i >= s.len() {
        s.len() as int
    } else if s[i] == c {
        i
    } else {
        next_index_of(s, i + 1, c)
    }
}

pub proof fn lemma_next_index_of(s: Seq<char>, i: int, c: char)
    requires
        0 <= i,
    ensures
        i <= s.len() ==> i <= next_index_of(s, i, c) <= s.len(),
        i > s.len() ==> next_index_of(s, i, c) == s.len(),
        next_index_of(s, i, c) < s.len() ==> s[next_index_of(s, i, c)] == c,
        forall|k: int| i <= k < next_index_of(s, i, c) ==> s[k] != c,
    decreases s.len() - i,
{
    if i < s.len() && s[i] != c {
        lemma_next_index_of(s, i + 1, c);
    }
}

/// The first index at or after `i` holding `c`, or `v.len()`.
pub fn find_char(v: &Vec<char>, i: usize, c: char) -> (j: usize)
    requires
        i <= v.len(),
    ensures
        j == next_index_of(v@, i as int, c),
{
    let mut j = i;
    while j < v.len() && v[j] != c
        invariant
            i <= j <= v.len(),
            next_index_of(v@, j as int, c) == next_index_of(v@, i as int, c),
        decreases v.len() - j,
    {
        j = j + 1;
    }
    j
}

/// Whether `pat` occurs in `s` at position `k`.
pub open spec fn occurs_at(s: Seq<char>, pat: Seq<char>, k: int) -> bool {
    0 <= k && k + pat.len() <= s.len() && s.subrange(k, k + pat.len()) == pat
}

/// The first position at or after `i` where `pat` occurs in `s` (`str::find`).
pub open spec fn find_from(s: Seq<char>, pat: Seq<char>, i: int) -> Option<int>
    decreases s.len() + 1 - i,
{
    if i < 0 || i > s.len() {
        None
    } else if occurs_at(s, pat, i) {
        Some(i)
    } else {
        find_from(s, pat, i + 1)
    }
}

pub proof fn lemma_find_from(s: Seq<char>, pat: Seq<char>, i: int)
    requires
        0 <= i,
    ensures
        find_from(s, pat, i) matches Some(k) ==> i <= k && occurs_at(s, pat, k),
    decreases s.len() + 1 - i,
{
    if i <= s.len() && !occurs_at(s, pat, i) {
        lemma_find_from(s, pat, i + 1);
    }
}

/// Whether `s` starts with `pat`.
pub open spec fn starts_with(s: Seq<char>, pat: Seq<char>) -> bool {
    occurs_at(s, pat, 0)
}

/// Whether `s` ends with `pat`.
pub open spec fn ends_with(s: Seq<char>, pat: Seq<char>) -> bool {
    occurs_at(s, pat, s.len() - pat.len())
}

/// Whether `pat` occurs in `v` at position `k`.
pub fn occurs_at_exec(v: &Vec<char>, pat: &Vec<char>, k: usize) -> (b: bool)
    ensures
        b == occurs_at(v@, pat@, k as int),
{
    if k > v.len() || pat.len() > v.len() - k {
        return false;
    }
    let mut i: usize = 0;
    while i < pat.len()
        invariant
            k + pat.len() <= v.len(),
            i <= pat.len(),
            forall|j: int| 0 <= j < i ==> v@[k + j] == pat@[j],
        decreases pat.len() - i,
    {
        if v[k + i] != pat[i] {
            assert(v@.subrange(k as int, k + pat.len())[i as int] != pat@[i as int]);
            return false;
        }
        i = i + 1;
    }
    assert(v@.subrange(k as int, k + pat.len()) =~= pat@);
    true
}

/// The first position at or after `i` where `pat` occurs in `v`.
pub fn find_exec(v: &Vec<char>, pat: &Vec<char>, i: usize) -> (r: Option<usize>)
    requires
        i <= v.len(),
    ensures
        match r {
            Some(k) => find_from(v@, pat@, i as int) == Some(k as int),
            None => find_from(v@, pat@, i as int) is None,
        },
{
    let mut k = i;
    loop
        invariant
            i <= k <= v.len(),
            find_from(v@, pat@, k as int) == find_from(v@, pat@, i as int),
        decreases v.len() - k,
    {
        if occurs_at_exec(v, pat, k) {
            return Some(k);
        }
        if k == v.len() {
            assert(find_from(v@, pat@, k + 1) is None);
            return None;
        }
        k = k + 1;
    }
}

/// `trim(s)` is a piece of `s` that neither starts nor ends with white space.
pub proof fn lemma_trim(s: Seq<char>)
    ensures
        exists|i: int, j: int| 0 <= i <= j <= s.len() && trim(s) == s.subrange(i, j),
        trim(s).len() > 0 ==> !is_white_space(trim(s)[0]) && !is_white_space(trim(s).last()),
{
    lemma_trim_start(s);
    let a = trim_start(s);
    let i = choose|i: int| 0 <= i <= s.len() && a == s.subrange(i, s.len() as int);
    lemma_trim_end(a);
    let j = choose|j: int| 0 <= j <= a.len() && trim_end(a) == a.subrange(0, j);
    assert(trim(s) =~= s.subrange(i, i + j));
    if trim(s).len() > 0 {
        assert(trim(s)[0] == a[0]);
    }
}

proof fn lemma_trim_start(s: Seq<char>)
    ensures
        exists|i: int| 0 <= i <= s.len() && trim_start(s) == s.subrange(i, s.len() as int),
        trim_start(s).len() > 0 ==> !is_white_space(trim_start(s)[0]),
    decreases s.len(),
{
    if s.len() > 0 && is_white_space(s[0]) {
        lemma_trim_start(s.drop_first());
        let i = choose|i: int|
            0 <= i <= s.drop_first().len() && trim_start(s.drop_first()) == s.drop_first().subrange(
                i,
                s.drop_first().len() as int,
            );
        assert(s.drop_first().subrange(i, s.drop_first().len() as int) =~= s.subrange(
            i + 1,
            s.len() as int,
        ));
    } else {
        assert(s.subrange(0, s.len() as int) =~= s);
    }
}

proof fn lemma_trim_end(s: Seq<char>)
    ensures
        exists|j: int| 0 <= j <= s.len() && trim_end(s) == s.subrange(0, j),
        trim_end(s).len() > 0 ==> !is_white_space(trim_end(s).last()),
    decreases s.len(),
{
    if s.len() > 0 && is_white_space(s.last()) {
        lemma_trim_end(s.drop_last());
        let j = choose|j: int|
            0 <= j <= s.drop_last().len() && trim_end(s.drop_last()) == s.drop_last().subrange(
                0,
                j,
            );
        assert(s.drop_last().subrange(0, j) =~= s.subrange(0, j));
    } else {
        assert(s.subrange(0, s.len() as int) =~= s);
    }
}

/// The characters of an optional string.
pub open spec fn opt_view(o: Option<String>) -> Option<Seq<char>> {
    match o {
        Some(s) => Some(s@),
        None => None,
    }
}

/// Text with no white space at either end.
pub open spec fn no_outer_space(t: Seq<char>) -> bool {
    t.len() == 0 || (!is_white_space(t[0]) && !is_white_space(t.last()))
}

} // verus!
