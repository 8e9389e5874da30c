//! Inline tags: the `#tag` words of a note outside code blocks.
use vstd::prelude::*;
use crate::text::{
    chars_of, copy_range, is_white_space, lemma_next_newline, lines, lines_from, next_newline,
    seq_views, string_of, white_space,
};
use crate::parser::{body_line_chars, body_lines_from, is_fence, spec_body_lines};

verus! {

/// Whether `regex_syntax::is_word_character` holds of `c`: the class `\w`
/// of Unicode regular expressions (Alphabetic, Join_Control, Decimal_Number,
/// Mark and Connector_Punctuation characters).
pub uninterp spec fn regex_word_char(c: char) -> bool;

/// An ASCII word character: `[0-9A-Za-z_]`.
pub open spec fn is_ascii_word(c: char) -> bool {
    ('0' <= c && c <= '9') || is_ascii_letter(c) || c == '_'
}

/// Calls `regex_syntax::is_word_character`, which tells whether `c` is in the
/// Unicode class `\w`; the result is named `regex_word_char(c)`. Of that
/// class two facts are stated, both plain in the crate's source (its
/// `is_word_byte` and its `PERL_WORD` table): among ASCII characters it is
/// exactly `[0-9A-Za-z_]`, and it holds no white-space character.
#[verifier::external_body]
fn word_character(c: char) -> (b: bool)
    ensures
        b == regex_word_char(c),
        (c as u32) < 128 ==> (b <==> is_ascii_word(c)),
        is_white_space(c) ==> !b,
{
    regex_syntax::is_word_character(c)
}

pub open spec fn is_ascii_letter(c: char) -> bool {
    ('a' <= c && c <= 'z') || ('A' <= c && c <= 'Z')
}

/// What a tag's characters are known to be: never white space, and among
/// ASCII characters only `[0-9A-Za-z_/-]` (so never `#` or `.`).
pub open spec fn plain_tag_char(c: char) -> bool {
    &&& !is_white_space(c)
    &&& (c as u32) < 128 ==> (is_ascii_word(c) || c == '/' || c == '-')
}

/// Every character of every tag in `ts` is a plain tag character.
pub open spec fn plain_tags(ts: Seq<Seq<char>>) -> bool {
    forall|k: int, j: int|
        0 <= k < ts.len() && 0 <= j < ts[k].len() ==> plain_tag_char(#[trigger] ts[k][j])
}

/// A character that may continue a tag: `[\w/-]`. Among ASCII characters
/// `\w` is `[0-9A-Za-z_]`; beyond them it is the class `regex_word_char`,
/// which holds no white space (both facts of `word_character`).
pub open spec fn is_tag_char(c: char) -> bool {
    if (c as u32) < 128 {
        is_ascii_word(c) || c == '/' || c == '-'
    } else {
        regex_word_char(c) && !is_white_space(c)
    }
}

/// The end of the longest run of tag characters in `l` starting at `i`.
pub open spec fn tag_end(l: Seq<char>, i: int) -> int
    decreases l.len() - i,
{
    if 0 <= i < l.len() && is_tag_char(l[i]) {
        tag_end(l, i + 1)
    } else {
        i
    }
}

pub proof fn lemma_tag_end(l: Seq<char>, i: int)
    requires
        0 <= i <= l.len(),
    ensures
        i <= tag_end(l, i) <= l.len(),
        forall|j: int| i <= j < tag_end(l, i) ==> is_tag_char(#[trigger] l[j]),
        tag_end(l, i) < l.len() ==> !is_tag_char(l[tag_end(l, i)]),
    decreases l.len() - i,
{
    if i < l.len() && is_tag_char(l[i]) {
        lemma_tag_end(l, i + 1);
    }
}

/// Where the `#` of a tag lies when the pattern `(?:^|[\s(])#([a-zA-Z][\w/-]*)`
/// matches at position `s` of line `l`: at the very start of the line, or
/// right after a white-space character or `(`, and followed by an ASCII letter.
pub open spec fn tag_hash_at(l: Seq<char>, s: int) -> Option<int> {
    if s == 0 && 1 < l.len() && l[0] == '#' && is_ascii_letter(l[1]) {
        Some(0)
    } else if 0 <= s && s + 2 < l.len() && (is_white_space(l[s]) || l[s] == '(') && l[s + 1]
        == '#' && is_ascii_letter(l[s + 2]) {
        Some(s + 1)
    } else {
        None
    }
}

/// The tag (without `#`) matched at position `s` of `l`, and where the match ends.
pub open spec fn tag_at(l: Seq<char>, s: int) -> Option<(Seq<char>, int)> {
    match tag_hash_at(l, s) {
        Some(h) => Some((l.subrange(h + 1, tag_end(l, h + 2)), tag_end(l, h + 2))),
        None => None,
    }
}

pub proof fn lemma_tag_at_end(l: Seq<char>, s: int)
    ensures
        tag_at(l, s) matches Some((_, e)) ==> s < e <= l.len(),
{
    if let Some(h) = tag_hash_at(l, s) {
        lemma_tag_end(l, h + 2);
    }
}

/// The tags of line `l` found from position `p` on, each search resuming
/// after the previous match.
pub open spec fn tags_from(l: Seq<char>, p: int) -> Seq<Seq<char>>
    decreases l.len() - p,
{
    if p < 0 || p >= l.len() {
        seq![]
    } else {
        match tag_at(l, p) {
            Some((t, e)) => {
                proof {
                    lemma_tag_at_end(l, p);
                }
                seq![t] + tags_from(l, e)
            },
            None => tags_from(l, p + 1),
        }
    }
}

/// The tag occurrences of the lines `ls` from index `i` on.
pub open spec fn tags_in_lines(ls: Seq<Seq<char>>, i: int) -> Seq<Seq<char>>
    decreases ls.len() - i,
{
    if i < 0 || i >= ls.len() {
        seq![]
    } else {
        tags_from(ls[i], 0) + tags_in_lines(ls, i + 1)
    }
}

/// Every tag occurrence of a note, in order, outside fenced code blocks.
pub open spec fn tag_occurrences(content: Seq<char>) -> Seq<Seq<char>> {
    tags_in_lines(spec_body_lines(content), 0)
}

/// `seen` followed by the elements of `xs` not seen before, in order.
pub open spec fn add_new(seen: Seq<Seq<char>>, xs: Seq<Seq<char>>) -> Seq<Seq<char>>
    decreases xs.len(),
{
    if xs.len() == 0 {
        seen
    } else if seen.contains(xs[0]) {
        add_new(seen, xs.drop_first())
    } else {
        add_new(seen.push(xs[0]), xs.drop_first())
    }
}

/// The tags of a note: each tag occurrence once, in order of first occurrence.
pub open spec fn spec_tags(content: Seq<char>) -> Seq<Seq<char>> {
    add_new(seq![], tag_occurrences(content))
}

pub proof fn lemma_add_new_concat(seen: Seq<Seq<char>>, a: Seq<Seq<char>>, b: Seq<Seq<char>>)
    ensures
        add_new(seen, a + b) == add_new(add_new(seen, a), b),
    decreases a.len(),
{
    if a.len() == 0 {
        assert(a + b =~= b);
    } else {
        assert((a + b).drop_first() =~= a.drop_first() + b);
        assert((a + b)[0] == a[0]);
        if seen.contains(a[0]) {
            lemma_add_new_concat(seen, a.drop_first(), b);
        } else {
            lemma_add_new_concat(seen.push(a[0]), a.drop_first(), b);
        }
    }
}

fn tag_run_end(l: &Vec<char>, i: usize) -> (e: usize)
    requires
        i <= l.len(),
    ensures
        e == tag_end(l@, i as int),
        forall|j: int| i <= j < e ==> plain_tag_char(#[trigger] l@[j]),
{
    let mut e = i;
    loop
        invariant
            i <= e <= l.len(),
            tag_end(l@, e as int) == tag_end(l@, i as int),
            forall|j: int| i <= j < e ==> plain_tag_char(#[trigger] l@[j]),
        ensures
            tag_end(l@, e as int) == e,
        decreases l.len() - e,
    {
        if e >= l.len() {
            break;
        }
        let c = l[e];
        if !(word_character(c) || c == '/' || c == '-') {
            break;
        }
        e = e + 1;
    }
    e
}

fn ascii_letter(c: char) -> (b: bool)
    ensures
        b == is_ascii_letter(c),
{
    ('a' <= c && c <= 'z') || ('A' <= c && c <= 'Z')
}

/// The tag matched at position `s` of line `l`, and where the match ends.
fn tag_match_at(l: &Vec<char>, s: usize) -> (res: Option<(String, usize)>)
    requires
        s <= l.len(),
    ensures
        match res {
            Some((t, e)) => tag_at(l@, s as int) == Some((t@, e as int)) && forall|j: int|
                0 <= j < t@.len() ==> plain_tag_char(#[trigger] t@[j]),
            None => tag_at(l@, s as int) is None,
        },
{
    let n = l.len();
    let h: usize;
    if s == 0 && 1 < n && l[0] == '#' && ascii_letter(l[1]) {
        h = 0;
    } else if s < n && s + 1 < n && s + 2 < n && (white_space(l[s]) || l[s] == '(') && l[s + 1] == '#'
        && ascii_letter(l[s + 2]) {
        h = s + 1;
    } else {
        return None;
    }
    let e = tag_run_end(l, h + 2);
    proof {
        lemma_tag_end(l@, h + 2);
    }
    let t = copy_range(l, h + 1, e);
    assert forall|j: int| 0 <= j < t@.len() implies plain_tag_char(#[trigger] t@[j]) by {
        assert(t@[j] == l@[h + 1 + j]);
    }
    Some((string_of(&t), e))
}

/// Whether `v` holds a string equal to `s`.
pub fn contains_string(v: &Vec<String>, s: &String) -> (b: bool)
    ensures
        b == v.deep_view().contains(s@),
{
    let mut i: usize = 0;
    while i < v.len()
        invariant
            i <= v.len(),
            forall|j: int| 0 <= j < i ==> v.deep_view()[j] != s@,
        decreases v.len() - i,
    {
        if v[i] == *s {
            assert(v.deep_view()[i as int] == s@);
            return true;
        }
        i = i + 1;
    }
    false
}

/// Appends to `tags` each tag of line `l` it does not hold yet.
fn push_line_tags(l: &Vec<char>, tags: &mut Vec<String>)
    requires
        plain_tags(old(tags).deep_view()),
    ensures
        final(tags).deep_view() == add_new(old(tags).deep_view(), tags_from(l@, 0)),
        plain_tags(final(tags).deep_view()),
{
    let mut p: usize = 0;
    while p < l.len()
        invariant
            p <= l.len(),
            plain_tags(tags.deep_view()),
            add_new(tags.deep_view(), tags_from(l@, p as int)) == add_new(
                old(tags).deep_view(),
                tags_from(l@, 0),
            ),
        decreases l.len() - p,
    {
        match tag_match_at(l, p) {
            Some((t, e)) => {
                proof {
                    lemma_tag_at_end(l@, p as int);
                }
                let ghost before = tags.deep_view();
                let ghost xs = tags_from(l@, p as int);
                assert(xs[0] == t@);
                assert(xs.drop_first() =~= tags_from(l@, e as int));
                if !contains_string(tags, &t) {
                    tags.push(t);
                    assert(tags.deep_view() =~= before.push(t@));
                    assert forall|k: int, j: int|
                        0 <= k < tags.deep_view().len() && 0 <= j < tags.deep_view()[k].len() implies plain_tag_char(
                        #[trigger] tags.deep_view()[k][j],
                    ) by {
                        if k < before.len() {
                            assert(tags.deep_view()[k] == before[k]);
                        } else {
                            assert(tags.deep_view()[k] == t@);
                        }
                    }
                }
                p = e;
            },
            None => {
                p = p + 1;
            },
        }
    }
    assert(tags_from(l@, p as int) =~= seq![]);
}

/// The inline tags of a note, each once, in order of first occurrence,
/// skipping fenced code blocks.
pub fn extract_tags(content: &str) -> (tags: Vec<String>)
    ensures
        tags.deep_view() == spec_tags(content@),
        tags.deep_view().no_duplicates(),
        forall|t: Seq<char>| #[trigger]
            tags.deep_view().contains(t) <==> tag_occurrences(content@).contains(t),
        forall|k: int| 0 <= k < tags.len() ==> tag_shaped(#[trigger] tags.deep_view()[k]),
        plain_tags(tags.deep_view()),
{
    proof {
        lemma_tags(content@);
    }
    let chars = chars_of(content);
    let ls = body_line_chars(&chars);
    let mut tags: Vec<String> = Vec::new();
    let mut i: usize = 0;
    assert(tags.deep_view() =~= seq![]);
    while i < ls.len()
        invariant
            i <= ls.len(),
            seq_views(ls@) == spec_body_lines(content@),
            plain_tags(tags.deep_view()),
            add_new(tags.deep_view(), tags_in_lines(seq_views(ls@), i as int)) == spec_tags(
                content@,
            ),
        decreases ls.len() - i,
    {
        let ghost before = tags.deep_view();
        assert(seq_views(ls@)[i as int] == ls[i as int]@);
        proof {
            lemma_add_new_concat(
                before,
                tags_from(ls[i as int]@, 0),
                tags_in_lines(seq_views(ls@), i + 1),
            );
        }
        push_line_tags(&ls[i], &mut tags);
        i = i + 1;
    }
    assert(tags_in_lines(seq_views(ls@), i as int) =~= seq![]);
    tags
}

/// A tag: an ASCII letter followed by tag characters.
pub open spec fn tag_shaped(t: Seq<char>) -> bool {
    &&& t.len() > 0
    &&& is_ascii_letter(t[0])
    &&& forall|k: int| 1 <= k < t.len() ==> is_tag_char(#[trigger] t[k])
}

proof fn lemma_tags_from_shaped(l: Seq<char>, p: int)
    ensures
        forall|i: int| 0 <= i < tags_from(l, p).len() ==> tag_shaped(#[trigger] tags_from(l, p)[i]),
    decreases l.len() - p,
{
    if 0 <= p < l.len() {
        lemma_tag_at_end(l, p);
        match tag_at(l, p) {
            Some((t, e)) => {
                let h = tag_hash_at(l, p)->0;
                lemma_tag_end(l, h + 2);
                assert forall|k: int| 1 <= k < t.len() implies is_tag_char(#[trigger] t[k]) by {
                    assert(t[k] == l[h + 1 + k]);
                }
                assert(t[0] == l[h + 1]);
                lemma_tags_from_shaped(l, e);
                assert(tags_from(l, p) == seq![t] + tags_from(l, e));
                assert forall|i: int| 0 <= i < tags_from(l, p).len() implies tag_shaped(
                    #[trigger] tags_from(l, p)[i],
                ) by {
                    if i > 0 {
                        assert(tags_from(l, p)[i] == tags_from(l, e)[i - 1]);
                    }
                }
            },
            None => {
                lemma_tags_from_shaped(l, p + 1);
                assert(tags_from(l, p) == tags_from(l, p + 1));
            },
        }
    }
}

proof fn lemma_tags_in_lines_shaped(ls: Seq<Seq<char>>, i: int)
    ensures
        forall|k: int|
            0 <= k < tags_in_lines(ls, i).len() ==> tag_shaped(#[trigger] tags_in_lines(ls, i)[k]),
    decreases ls.len() - i,
{
    if 0 <= i < ls.len() {
        lemma_tags_from_shaped(ls[i], 0);
        lemma_tags_in_lines_shaped(ls, i + 1);
        let a = tags_from(ls[i], 0);
        assert forall|k: int| 0 <= k < tags_in_lines(ls, i).len() implies tag_shaped(
            #[trigger] tags_in_lines(ls, i)[k],
        ) by {
            if k >= a.len() {
                assert(tags_in_lines(ls, i)[k] == tags_in_lines(ls, i + 1)[k - a.len()]);
            } else {
                assert(tags_in_lines(ls, i)[k] == a[k]);
            }
        }
    }
}

/// A tag character as far as it is known is never `#`, `.` or white space:
/// so no tag `extract_tags` returns holds one.
pub proof fn lemma_plain_tag_char(c: char)
    requires
        plain_tag_char(c),
    ensures
        c != '#',
        c != '.',
        !is_white_space(c),
{
}

/// Keeping first occurrences leaves no duplicates and loses nothing.
pub proof fn lemma_add_new(seen: Seq<Seq<char>>, xs: Seq<Seq<char>>)
    requires
        seen.no_duplicates(),
    ensures
        add_new(seen, xs).no_duplicates(),
        forall|t: Seq<char>| #[trigger]
            add_new(seen, xs).contains(t) <==> seen.contains(t) || xs.contains(t),
    decreases xs.len(),
{
    if xs.len() > 0 {
        let x = xs[0];
        let rest = xs.drop_first();
        assert(xs =~= seq![x] + rest);
        assert forall|t: Seq<char>| xs.contains(t) <==> t == x || rest.contains(t) by {
            if xs.contains(t) {
                let k = choose|k: int| 0 <= k < xs.len() && xs[k] == t;
                if k > 0 {
                    assert(rest[k - 1] == t);
                }
            }
            if rest.contains(t) {
                let k = choose|k: int| 0 <= k < rest.len() && rest[k] == t;
                assert(xs[k + 1] == t);
            }
        }
        if seen.contains(x) {
            lemma_add_new(seen, rest);
        } else {
            let s2 = seen.push(x);
            assert(s2.no_duplicates()) by {
                assert forall|i: int, j: int| 0 <= i < s2.len() && 0 <= j < s2.len() && i != j implies s2[i]
                    != s2[j] by {
                    if i == seen.len() as int {
                        assert(!seen.contains(s2[j]) || s2[j] != x);
                    } else if j == seen.len() as int {
                        assert(s2[i] == seen[i]);
                    }
                }
            }
            assert forall|t: Seq<char>| s2.contains(t) <==> seen.contains(t) || t == x by {
                if s2.contains(t) {
                    let k = choose|k: int| 0 <= k < s2.len() && s2[k] == t;
                    if k < seen.len() {
                        assert(seen[k] == t);
                    }
                }
                if seen.contains(t) {
                    let k = choose|k: int| 0 <= k < seen.len() && seen[k] == t;
                    assert(s2[k] == t);
                }
                if t == x {
                    assert(s2[seen.len() as int] == x);
                }
            }
            lemma_add_new(s2, rest);
        }
    }
}

/// The tags of a note: no tag twice, every tag occurrence represented,
/// and each tag an ASCII letter followed by tag characters (so a heading
/// such as `# Title` yields none).
pub proof fn lemma_tags(content: Seq<char>)
    ensures
        spec_tags(content).no_duplicates(),
        forall|t: Seq<char>| #[trigger]
            spec_tags(content).contains(t) <==> tag_occurrences(content).contains(t),
        forall|k: int| 0 <= k < spec_tags(content).len() ==> tag_shaped(#[trigger] spec_tags(content)[k]),
{
    let e: Seq<Seq<char>> = seq![];
    lemma_add_new(e, tag_occurrences(content));
    lemma_tags_in_lines_shaped(spec_body_lines(content), 0);
    assert forall|k: int| 0 <= k < spec_tags(content).len() implies tag_shaped(
        #[trigger] spec_tags(content)[k],
    ) by {
        let t = spec_tags(content)[k];
        assert(spec_tags(content).contains(t));
        assert(tag_occurrences(content).contains(t));
        let j = choose|j: int| 0 <= j < tag_occurrences(content).len() && tag_occurrences(content)[j] == t;
        assert(tag_shaped(tags_in_lines(spec_body_lines(content), 0)[j]));
    }
}

/// The ASCII characters that continue a tag are exactly the letters, the
/// digits, `_`, `/` and `-` (the class `[\w/-]` of the tag pattern).
pub proof fn lemma_ascii_tag_chars(c: char)
    requires
        (c as u32) < 128,
    ensures
        is_tag_char(c) <==> (('a' <= c && c <= 'z') || ('A' <= c && c <= 'Z') || ('0' <= c && c
            <= '9') || c == '_' || c == '/' || c == '-'),
{
}

proof fn lemma_tag_end_full(l: Seq<char>, i: int)
    requires
        0 <= i <= l.len(),
        forall|k: int| i <= k < l.len() ==> is_tag_char(#[trigger] l[k]),
    ensures
        tag_end(l, i) == l.len(),
{
    lemma_tag_end(l, i);
    if tag_end(l, i) < l.len() {
        assert(is_tag_char(l[tag_end(l, i)]));
    }
}

/// A note that is `#` followed by an ASCII letter and then only ASCII
/// letters, digits, `_`, `/` or `-` has exactly one tag: that whole word.
pub proof fn lemma_single_tag_note(t: Seq<char>)
    requires
        t.len() > 0,
        ('a' <= t[0] && t[0] <= 'z') || ('A' <= t[0] && t[0] <= 'Z'),
        forall|k: int|
            0 <= k < t.len() ==> ('a' <= #[trigger] t[k] && t[k] <= 'z') || ('A' <= t[k] && t[k]
                <= 'Z') || ('0' <= t[k] && t[k] <= '9') || t[k] == '_' || t[k] == '/' || t[k] == '-',
    ensures
        spec_tags(seq!['#'] + t) == seq![t],
{
    let c = seq!['#'] + t;
    let n = c.len() as int;
    assert forall|k: int| 1 <= k < n implies c[k] == t[k - 1] && c[k] != '\n' && is_tag_char(
        #[trigger] c[k],
    ) by {
        assert(c[k] == t[k - 1]);
        lemma_ascii_tag_chars(c[k]);
    }
    // a single line
    lemma_next_newline(c, 0);
    assert(next_newline(c, 0) == n);
    assert(c.subrange(0, n) =~= c);
    assert(lines(c) =~= seq![c]);
    assert(!is_fence(c));
    assert(body_lines_from(seq![c], 1, false) == Seq::<Seq<char>>::empty());
    assert(spec_body_lines(c) =~= seq![c]);
    // with one tag
    lemma_tag_end_full(c, 2);
    assert(tag_hash_at(c, 0) == Some(0int));
    assert(c.subrange(1, n) =~= t);
    assert(tag_at(c, 0) == Some((t, n)));
    assert(tags_from(c, n) == Seq::<Seq<char>>::empty());
    assert(tags_from(c, 0) =~= seq![t]);
    assert(tags_in_lines(seq![c], 1) == Seq::<Seq<char>>::empty());
    assert(tag_occurrences(c) =~= seq![t]);
    let e: Seq<Seq<char>> = seq![];
    assert(!e.contains(t));
    assert(seq![t].drop_first() =~= Seq::<Seq<char>>::empty());
    assert(e.push(t) =~= seq![t]);
    assert(add_new(e.push(t), Seq::<Seq<char>>::empty()) == e.push(t));
    assert(add_new(e, seq![t]) == add_new(e.push(t), seq![t].drop_first()));
    assert(spec_tags(c) == add_new(e, tag_occurrences(c)));
}

/// A character of the class `[\w/-]` that a tag runs over: among ASCII the
/// letters, digits, `_`, `/` and `-`; beyond ASCII a Unicode word
/// character, never white space.
pub open spec fn tag_word_char(c: char) -> bool {
    if (c as u32) < 128 {
        ('a' <= c && c <= 'z') || ('A' <= c && c <= 'Z') || ('0' <= c && c <= '9') || c == '_' || c
            == '/' || c == '-'
    } else {
        regex_word_char(c) && !is_white_space(c)
    }
}

/// Tag `t` is written in line `l` with its `#` at `h`: the `#` opens the
/// line or follows white space or `(`, `t` follows it and starts with an
/// ASCII letter, and `t` runs up to the end of the line or to the first
/// character outside `[\w/-]`.
pub open spec fn tag_written_at(l: Seq<char>, h: int, t: Seq<char>) -> bool {
    &&& 0 <= h
    &&& h + 1 + t.len() <= l.len()
    &&& l[h] == '#'
    &&& (h == 0 || is_white_space(l[h - 1]) || l[h - 1] == '(')
    &&& t.len() > 0
    &&& (('a' <= t[0] && t[0] <= 'z') || ('A' <= t[0] && t[0] <= 'Z'))
    &&& l.subrange(h + 1, h + 1 + t.len()) == t
    &&& (h + 1 + t.len() == l.len() || !tag_word_char(l[h + 1 + t.len()]))
}

proof fn lemma_tags_from_written(l: Seq<char>, p: int, k: int)
    requires
        0 <= p,
        0 <= k < tags_from(l, p).len(),
    ensures
        exists|h: int| #[trigger] tag_written_at(l, h, tags_from(l, p)[k]),
    decreases l.len() - p,
{
    if 0 <= p < l.len() {
        lemma_tag_at_end(l, p);
        match tag_at(l, p) {
            Some((t, e)) => {
                let h = tag_hash_at(l, p)->0;
                lemma_tag_end(l, h + 2);
                assert(tags_from(l, p) == seq![t] + tags_from(l, e));
                if k == 0 {
                    assert(t.len() == e - h - 1);
                    assert(t[0] == l[h + 1]);
                    assert(l.subrange(h + 1, h + 1 + t.len()) == t);
                    if e < l.len() {
                        assert(!is_tag_char(l[e]));
                    }
                    assert(tags_from(l, p)[k] == t);
                    assert(tag_written_at(l, h, tags_from(l, p)[k]));
                } else {
                    lemma_tags_from_written(l, e, k - 1);
                    assert(tags_from(l, p)[k] == tags_from(l, e)[k - 1]);
                }
            },
            None => {
                lemma_tags_from_written(l, p + 1, k);
                assert(tags_from(l, p) == tags_from(l, p + 1));
            },
        }
    }
}

proof fn lemma_tags_in_lines_written(ls: Seq<Seq<char>>, i: int, t: Seq<char>)
    requires
        0 <= i,
        tags_in_lines(ls, i).contains(t),
    ensures
        exists|li: int, h: int| i <= li < ls.len() && #[trigger] tag_written_at(ls[li], h, t),
    decreases ls.len() - i,
{
    if 0 <= i < ls.len() {
        let a = tags_from(ls[i], 0);
        let rest = tags_in_lines(ls, i + 1);
        assert(tags_in_lines(ls, i) == a + rest);
        let k = choose|k: int| 0 <= k < (a + rest).len() && (a + rest)[k] == t;
        if k < a.len() {
            lemma_tags_from_written(ls[i], 0, k);
            assert(a[k] == t);
            let h = choose|h: int| #[trigger] tag_written_at(ls[i], h, a[k]);
            assert(tag_written_at(ls[i], h, t));
        } else {
            assert(rest[k - a.len()] == t);
            lemma_tags_in_lines_written(ls, i + 1, t);
        }
    }
}

/// Every tag of a note is written in one of its lines outside fenced code
/// blocks: after a `#` that opens the line or follows white space or `(`,
/// starting with an ASCII letter, and running to the end of the line or to
/// the first character outside `[\w/-]` (so `x#d` and `#1e` give no tag,
/// and `#ProjectAlpha` gives `ProjectAlpha`, not a part of it).
pub proof fn lemma_tag_written(content: Seq<char>, t: Seq<char>)
    requires
        spec_tags(content).contains(t),
    ensures
        exists|i: int, h: int|
            0 <= i < spec_body_lines(content).len() && #[trigger] tag_written_at(
                spec_body_lines(content)[i],
                h,
                t,
            ),
{
    lemma_tags(content);
    lemma_tags_in_lines_written(spec_body_lines(content), 0, t);
}

} // verus!
