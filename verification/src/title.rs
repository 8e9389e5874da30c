//! The title of a note: the text of its first `#` heading.
use vstd::prelude::*;
use crate::text::{
    chars_of, copy_range, find_newline, is_white_space, lemma_next_newline, lemma_trim,
    next_newline, no_outer_space, opt_view, string_of, trim, trim_chars, trim_start,
    white_space,
};

verus! {

/// The end of the white-space run of `s` starting at `i`.
pub open spec fn space_end(s: Seq<char>, i: int) -> int
    decreases s.len() - i,
{
    if 0 <= i < s.len() && is_white_space(s[i]) {
        space_end(s, i + 1)
    } else {
        i
    }
}

pub proof fn lemma_space_end(s: Seq<char>, i: int)
    requires
        0 <= i <= s.len(),
    ensures
        i <= space_end(s, i) <= s.len(),
        forall|j: int| i <= j < space_end(s, i) ==> is_white_space(#[trigger] s[j]),
        space_end(s, i) < s.len() ==> !is_white_space(s[space_end(s, i)]),
    decreases s.len() - i,
{
    if i < s.len() && is_white_space(s[i]) {
        lemma_space_end(s, i + 1);
    }
}

/// The last index in `lo..hi` holding something other than a line feed.
pub open spec fn last_non_newline(s: Seq<char>, lo: int, hi: int) -> Option<int>
    decreases hi - lo,
{
    if hi <= lo || hi > s.len() {
        None
    } else if s[hi - 1] != '\n' {
        Some(hi - 1)
    } else {
        last_non_newline(s, lo, hi - 1)
    }
}

pub proof fn lemma_last_non_newline(s: Seq<char>, lo: int, hi: int)
    requires
        0 <= lo,
        hi <= s.len(),
    ensures
        last_non_newline(s, lo, hi) matches Some(j) ==> lo <= j < hi && s[j] != '\n',
    decreases hi - lo,
{
    if lo < hi && s[hi - 1] == '\n' {
        lemma_last_non_newline(s, lo, hi - 1);
    }
}

/// Whether a line begins at position `p` of `s`.
pub open spec fn is_line_start(s: Seq<char>, p: int) -> bool {
    p == 0 || (0 < p <= s.len() && s[p - 1] == '\n')
}

/// The title that the multi-line pattern `^#\s+(.+)$` captures from a match
/// at the line start `p` (trimmed). `\s+` may run over line feeds; when it
/// runs to the end of the text, it gives back characters until `.+` can
/// take one that is not a line feed.
pub open spec fn title_at(s: Seq<char>, p: int) -> Option<Seq<char>> {
    if !(0 <= p < s.len() && s[p] == '#') {
        None
    } else {
        let w = space_end(s, p + 1);
        if w == p + 1 {
            None
        } else if w < s.len() {
            Some(trim(s.subrange(w, next_newline(s, w))))
        } else {
            match last_non_newline(s, p + 2, s.len() as int) {
                Some(j) => Some(trim(s.subrange(j, next_newline(s, j)))),
                None => None,
            }
        }
    }
}

/// The first title found at a line start at or after `p`.
pub open spec fn title_from(s: Seq<char>, p: int) -> Option<Seq<char>>
    decreases s.len() - p,
{
    if p < 0 || p >= s.len() {
        None
    } else if is_line_start(s, p) && title_at(s, p) is Some {
        title_at(s, p)
    } else {
        title_from(s, p + 1)
    }
}

/// The title of a note: the text of its first `# ` heading.
pub open spec fn spec_title(content: Seq<char>) -> Option<Seq<char>> {
    title_from(content, 0)
}

fn space_run_end(v: &Vec<char>, i: usize) -> (e: usize)
    requires
        i <= v.len(),
    ensures
        e == space_end(v@, i as int),
{
    let mut e = i;
    while e < v.len() && white_space(v[e])
        invariant
            i <= e <= v.len(),
            space_end(v@, e as int) == space_end(v@, i as int),
        decreases v.len() - e,
    {
        e = e + 1;
    }
    e
}

fn find_last_non_newline(v: &Vec<char>, lo: usize) -> (r: Option<usize>)
    requires
        lo <= v.len(),
    ensures
        match r {
            Some(j) => last_non_newline(v@, lo as int, v.len() as int) == Some(j as int),
            None => last_non_newline(v@, lo as int, v.len() as int) is None,
        },
{
    let mut hi = v.len();
    while hi > lo && v[hi - 1] == '\n'
        invariant
            lo <= hi <= v.len(),
            last_non_newline(v@, lo as int, hi as int) == last_non_newline(
                v@,
                lo as int,
                v.len() as int,
            ),
        decreases hi - lo,
    {
        hi = hi - 1;
    }
    if hi > lo {
        Some(hi - 1)
    } else {
        None
    }
}

fn title_match_at(v: &Vec<char>, p: usize) -> (r: Option<String>)
    requires
        p < v.len(),
    ensures
        match r {
            Some(t) => title_at(v@, p as int) == Some(t@),
            None => title_at(v@, p as int) is None,
        },
{
    let n = v.len();
    if v[p] != '#' {
        return None;
    }
    let w = space_run_end(v, p + 1);
    proof {
        lemma_space_end(v@, p + 1);
    }
    if w == p + 1 {
        return None;
    }
    let start: usize;
    if w < n {
        start = w;
    } else {
        match find_last_non_newline(v, p + 2) {
            Some(j) => {
                proof {
                    lemma_last_non_newline(v@, p + 2, n as int);
                }
                start = j;
            },
            None => {
                return None;
            },
        }
    }
    let end = find_newline(v, start);
    proof {
        lemma_next_newline(v@, start as int);
    }
    let text = copy_range(v, start, end);
    let t = trim_chars(&text);
    Some(string_of(&t))
}

/// The title of a note: the trimmed text of the first line that the
/// multi-line pattern `^#\s+(.+)$` matches.
pub fn extract_title(content: &str) -> (title: Option<String>)
    ensures
        opt_view(title) == spec_title(content@),
        title matches Some(t) ==> no_outer_space(t@),
{
    let v = chars_of(content);
    let n = v.len();
    let mut p: usize = 0;
    while p < n
        invariant
            n == v.len(),
            v@ == content@,
            p <= n,
            title_from(v@, p as int) == spec_title(content@),
        decreases n - p,
    {
        if p == 0 || v[p - 1] == '\n' {
            match title_match_at(&v, p) {
                Some(t) => {
                    assert(spec_title(content@) == Some(t@));
                    proof {
                        lemma_title_trimmed(content@);
                    }
                    return Some(t);
                },
                None => {},
            }
        }
        p = p + 1;
    }
    None
}

proof fn lemma_title_from(s: Seq<char>, p: int)
    ensures
        title_from(s, p) matches Some(t) ==> no_outer_space(t),
    decreases s.len() - p,
{
    if 0 <= p < s.len() {
        if is_line_start(s, p) && title_at(s, p) is Some {
            let w = space_end(s, p + 1);
            if w < s.len() {
                lemma_trim(s.subrange(w, next_newline(s, w)));
            } else if let Some(j) = last_non_newline(s, p + 2, s.len() as int) {
                lemma_trim(s.subrange(j, next_newline(s, j)));
            }
        } else {
            lemma_title_from(s, p + 1);
        }
    }
}

/// A note's title has no white space at either end.
pub proof fn lemma_title_trimmed(content: Seq<char>)
    ensures
        spec_title(content) matches Some(t) ==> no_outer_space(t),
{
    lemma_title_from(content, 0);
}

proof fn lemma_space_end_within(s: Seq<char>, x: Seq<char>, off: int, i: int)
    requires
        0 <= off,
        off + x.len() <= s.len(),
        forall|k: int| 0 <= k < x.len() ==> s[off + k] == x[k],
        0 <= i <= x.len(),
        exists|k: int| i <= k < x.len() && !is_white_space(x[k]),
    ensures
        space_end(s, off + i) == off + space_end(x, i),
        space_end(x, i) < x.len(),
    decreases x.len() - i,
{
    let k = choose|k: int| i <= k < x.len() && !is_white_space(x[k]);
    assert(s[off + i] == x[i]);
    if is_white_space(x[i]) {
        assert(k != i);
        lemma_space_end_within(s, x, off, i + 1);
    }
}

proof fn lemma_trim_start_from(x: Seq<char>, i: int)
    requires
        0 <= i <= x.len(),
    ensures
        trim_start(x.subrange(i, x.len() as int)) == x.subrange(space_end(x, i), x.len() as int),
    decreases x.len() - i,
{
    let t = x.subrange(i, x.len() as int);
    if i < x.len() && is_white_space(x[i]) {
        assert(t.drop_first() =~= x.subrange(i + 1, x.len() as int));
        lemma_trim_start_from(x, i + 1);
    }
}

/// A note whose first line is a `# ` heading has that heading's text,
/// trimmed, as its title, whatever follows the line (a trailing `\r`
/// included, as white space).
pub proof fn lemma_first_heading_is_title(x: Seq<char>, rest: Seq<char>)
    requires
        forall|k: int| 0 <= k < x.len() ==> x[k] != '\n',
        exists|k: int| 0 <= k < x.len() && !is_white_space(x[k]),
        rest.len() == 0 || rest[0] == '\n',
    ensures
        spec_title(seq!['#', ' '] + x + rest) == Some(trim(x)),
{
    let s = seq!['#', ' '] + x + rest;
    let n = x.len() as int;
    assert forall|k: int| 0 <= k < n implies s[2 + k] == x[k] by {}
    lemma_space_end_within(s, x, 2, 0);
    let a = space_end(x, 0);
    assert(space_end(s, 1) == space_end(s, 2));
    let w = space_end(s, 1);
    assert(w == 2 + a);
    lemma_space_end(x, 0);
    lemma_next_newline(s, w);
    let nn = next_newline(s, w);
    if nn < 2 + n {
        assert(s[nn] == x[nn - 2]);
    }
    if rest.len() > 0 {
        assert(s[2 + n] == '\n');
    }
    assert(nn == 2 + n);
    assert(s.subrange(w, nn) =~= x.subrange(a, n));
    lemma_trim_start_from(x, 0);
    assert(x.subrange(0, n) =~= x);
    lemma_trim_start_from(x, a);
    lemma_space_end(x, a);
    assert(space_end(x, a) == a);
    assert(title_at(s, 0) == Some(trim(x)));
}

/// Position `p` of `s` begins a heading line: a line that starts with `#`
/// followed by a white-space character.
pub open spec fn heading_start(s: Seq<char>, p: int) -> bool {
    &&& 0 <= p
    &&& p + 1 < s.len()
    &&& is_line_start(s, p)
    &&& s[p] == '#'
    &&& is_white_space(s[p + 1])
}

proof fn lemma_no_non_newline(s: Seq<char>, lo: int, hi: int)
    requires
        0 <= lo,
        hi <= s.len(),
        last_non_newline(s, lo, hi) is None,
    ensures
        forall|k: int| lo <= k < hi ==> s[k] == '\n',
    decreases hi - lo,
{
    if lo < hi {
        lemma_no_non_newline(s, lo, hi - 1);
    }
}

/// The title found from `p` on comes from the first heading line at or
/// after `p`, and is the trimmed rest of a line that starts after the
/// heading's `#` and white space.
proof fn lemma_title_source_from(s: Seq<char>, p: int)
    requires
        0 <= p,
    ensures
        title_from(s, p) matches Some(t) ==> exists|q: int|
            #![trigger heading_start(s, q)]
            p <= q && heading_start(s, q) && (forall|r: int| p <= r < q ==> !heading_start(s, r))
                && exists|a: int|
                q + 1 < a <= s.len() && t == trim(s.subrange(a, #[trigger] next_newline(s, a))),
    decreases s.len() - p,
{
    if 0 <= p < s.len() {
        if is_line_start(s, p) && title_at(s, p) is Some {
            let t = title_at(s, p)->0;
            assert(s[p] == '#');
            assert(space_end(s, p + 1) != p + 1);
            assert(p + 1 < s.len() && is_white_space(s[p + 1]));
            assert(heading_start(s, p));
            lemma_space_end(s, p + 1);
            let w = space_end(s, p + 1);
            if w < s.len() {
                assert(t == trim(s.subrange(w, next_newline(s, w))));
            } else {
                lemma_last_non_newline(s, p + 2, s.len() as int);
                let j = last_non_newline(s, p + 2, s.len() as int)->0;
                assert(t == trim(s.subrange(j, next_newline(s, j))));
            }
        } else {
            lemma_title_source_from(s, p + 1);
            if title_from(s, p) is Some && heading_start(s, p) {
                lemma_space_end(s, p + 1);
                assert(space_end(s, p + 1) == s.len());
                lemma_no_non_newline(s, p + 2, s.len() as int);
                let q = choose|q: int|
                    #![trigger heading_start(s, q)]
                    p + 1 <= q && heading_start(s, q) && (forall|r: int|
                        p + 1 <= r < q ==> !heading_start(s, r)) && exists|a: int|
                        q + 1 < a <= s.len() && title_from(s, p)->0 == trim(
                            s.subrange(a, #[trigger] next_newline(s, a)),
                        );
                if q == p + 1 {
                    assert(s[q - 1] == '\n');
                } else {
                    assert(s[q] == '\n');
                }
            }
        }
    }
}
/// A note's title comes from its first heading line, a line that starts
/// with `#` and then white space (so `## Intro` or `#tag` are none): it is
/// the trimmed rest of a line that starts after that `#` and white space.
/// A note without a heading line has no title.
pub proof fn lemma_title_from_first_heading(content: Seq<char>)
    ensures
        spec_title(content) matches Some(t) ==> exists|p: int|
            #![trigger heading_start(content, p)]
            heading_start(content, p) && (forall|r: int| 0 <= r < p ==> !heading_start(content, r))
                && exists|a: int|
                p + 1 < a <= content.len() && t == trim(
                    content.subrange(a, #[trigger] next_newline(content, a)),
                ),
{
    lemma_title_source_from(content, 0);
}

} // verus!
