//! Markdown note parsing: the frontmatter block, the lines outside fenced
//! code blocks, and the parsed note with its tags, wikilinks and title.
use vstd::prelude::*;
use crate::frontmatter::{decode_frontmatter, get, spec_get, yaml_value, FmKind, FmValue};
use crate::text::{
    chars_of, copy_range, ends_with, find_char, find_exec, find_from, lemma_find_from,
    lemma_next_index_of, lemma_trim, lines, next_index_of, no_outer_space, occurs_at_exec,
    opt_view, seq_views, split_lines, starts_with, string_of, trim, trim_chars,
};
pub use crate::tags::{contains_string, extract_tags, spec_tags};
pub use crate::title::{extract_title, spec_title};
pub use crate::wikilinks::{extract_wikilinks, link_views, spec_wikilinks, LinkView, WikiLink};

verus! {

/// A line that opens or closes a fenced code block (starts with three backticks).
pub open spec fn is_fence(l: Seq<char>) -> bool {
    l.len() >= 3 && l[0] == '`' && l[1] == '`' && l[2] == '`'
}

/// The lines of `ls` from index `i` on that lie outside fenced code blocks,
/// `in_code` telling whether a block is open before line `i`. Fence lines
/// themselves are dropped.
pub open spec fn body_lines_from(ls: Seq<Seq<char>>, i: int, in_code: bool) -> Seq<Seq<char>>
    decreases ls.len() - i,
{
    if i < 0 || i >= ls.len() {
        seq![]
    } else if is_fence(ls[i]) {
        body_lines_from(ls, i + 1, !in_code)
    } else if in_code {
        body_lines_from(ls, i + 1, in_code)
    } else {
        seq![ls[i]] + body_lines_from(ls, i + 1, in_code)
    }
}

/// The non-code-block lines of a note.
pub open spec fn spec_body_lines(content: Seq<char>) -> Seq<Seq<char>> {
    body_lines_from(lines(content), 0, false)
}

fn starts_with_fence(l: &Vec<char>) -> (b: bool)
    ensures
        b == is_fence(l@),
{
    l.len() >= 3 && l[0] == '`' && l[1] == '`' && l[2] == '`'
}

/// The lines of `content` that are not inside a fenced code block.
pub(crate) fn body_line_chars(content: &Vec<char>) -> (r: Vec<Vec<char>>)
    ensures
        seq_views(r@) == spec_body_lines(content@),
{
    let ls = split_lines(content);
    let mut r: Vec<Vec<char>> = Vec::new();
    let mut in_code = false;
    let mut i: usize = 0;
    let n = ls.len();
    while i < n
        invariant
            n == ls.len(),
            i <= n,
            seq_views(ls@) == lines(content@),
            seq_views(r@) + body_lines_from(seq_views(ls@), i as int, in_code) == spec_body_lines(
                content@,
            ),
        decreases n - i,
    {
        let ghost before = seq_views(r@);
        assert(seq_views(ls@)[i as int] == ls[i as int]@);
        if starts_with_fence(&ls[i]) {
            in_code = !in_code;
        } else if !in_code {
            r.push(copy_range(&ls[i], 0, ls[i].len()));
            assert(ls[i as int]@.subrange(0, ls[i as int]@.len() as int) =~= ls[i as int]@);
            assert(seq_views(r@) =~= before + seq![seq_views(ls@)[i as int]]);
        }
        i = i + 1;
    }
    r
}

/// The lines of a note that lie outside fenced code blocks, in order; the
/// fence lines themselves are left out.
pub fn body_lines(content: &str) -> (r: Vec<String>)
    ensures
        r.deep_view() == spec_body_lines(content@),
{
    let chars = chars_of(content);
    let ls = body_line_chars(&chars);
    let mut r: Vec<String> = Vec::new();
    let mut i: usize = 0;
    while i < ls.len()
        invariant
            i <= ls.len(),
            seq_views(ls@) == spec_body_lines(content@),
            r.deep_view() == seq_views(ls@).subrange(0, i as int),
        decreases ls.len() - i,
    {
        let ghost before = r.deep_view();
        let item = string_of(&ls[i]);
        assert(item@ == seq_views(ls@)[i as int]);
        r.push(item);
        assert(r.deep_view() =~= before.push(item@));
        assert(r.deep_view() =~= seq_views(ls@).subrange(0, i + 1));
        i = i + 1;
    }
    assert(seq_views(ls@).subrange(0, i as int) =~= seq_views(ls@));
    r
}

/// Where the frontmatter block of `rest` (the text after the opening `---`
/// line) closes: the index of the line feed before the closing `---` and
/// the index where the body starts. The first `\n---\n` wins, then the
/// first `\n---\r\n`, then a `\n---` that ends the text.
pub open spec fn frontmatter_close(rest: Seq<char>) -> Option<(int, int)> {
    match find_from(rest, seq!['\n', '-', '-', '-', '\n'], 0) {
        Some(i) => Some((i, i + 5)),
        None => match find_from(rest, seq!['\n', '-', '-', '-', '\r', '\n'], 0) {
            Some(i) => Some((i, i + 6)),
            None => if ends_with(rest, seq!['\n', '-', '-', '-']) {
                Some((rest.len() - 4, rest.len() as int))
            } else {
                None
            },
        },
    }
}

/// The frontmatter source and the body of a note. A note with frontmatter
/// starts with a `---` line and has a closing `---` line; the source is the
/// text between them, with the line feed before the closing `---`. Without
/// frontmatter the body is the whole note.
pub open spec fn spec_split_frontmatter(c: Seq<char>) -> (Option<Seq<char>>, Seq<char>) {
    let crlf = starts_with(c, seq!['-', '-', '-', '\r', '\n']);
    if !starts_with(c, seq!['-', '-', '-', '\n']) && !crlf {
        (None, c)
    } else {
        let rest = c.subrange(if crlf { 5 } else { 4 }, c.len() as int);
        match frontmatter_close(rest) {
            Some((yaml_end, body_start)) => (
                Some(rest.subrange(0, yaml_end + 1)),
                rest.subrange(body_start, rest.len() as int),
            ),
            None => (None, c),
        }
    }
}

/// Splits a note into the YAML source of its frontmatter block, if it has
/// one, and its body.
pub fn split_frontmatter(content: &str) -> (r: (Option<String>, String))
    ensures
        (opt_view(r.0), r.1@) == spec_split_frontmatter(content@),
        r.1@.is_suffix_of(content@),
        r.0 is None ==> r.1@ == content@,
{
    proof {
        lemma_split_body_is_suffix(content@);
    }
    let c = chars_of(content);
    let open_lf = vec!['-', '-', '-', '\n'];
    let open_crlf = vec!['-', '-', '-', '\r', '\n'];
    let crlf = occurs_at_exec(&c, &open_crlf, 0);
    if !occurs_at_exec(&c, &open_lf, 0) && !crlf {
        return (None, string_of(&c));
    }
    let after: usize = if crlf {
        5
    } else {
        4
    };
    let rest = copy_range(&c, after, c.len());
    let close_lf = vec!['\n', '-', '-', '-', '\n'];
    let close_crlf = vec!['\n', '-', '-', '-', '\r', '\n'];
    let close_end = vec!['\n', '-', '-', '-'];
    let close: Option<(usize, usize)> = match find_exec(&rest, &close_lf, 0) {
        Some(i) => {
            proof {
                lemma_find_from(rest@, close_lf@, 0);
            }
            Some((i, i + 5))
        },
        None => match find_exec(&rest, &close_crlf, 0) {
            Some(i) => {
                proof {
                    lemma_find_from(rest@, close_crlf@, 0);
                }
                Some((i, i + 6))
            },
            None => {
                if rest.len() >= 4 && occurs_at_exec(&rest, &close_end, rest.len() - 4) {
                    Some((rest.len() - 4, rest.len()))
                } else {
                    None
                }
            },
        },
    };
    assert(close_lf@ =~= seq!['\n', '-', '-', '-', '\n']);
    assert(close_crlf@ =~= seq!['\n', '-', '-', '-', '\r', '\n']);
    assert(close_end@ =~= seq!['\n', '-', '-', '-']);
    match close {
        Some((yaml_end, body_start)) => {
            let yaml = copy_range(&rest, 0, yaml_end + 1);
            let body = copy_range(&rest, body_start, rest.len());
            (Some(string_of(&yaml)), string_of(&body))
        },
        None => (None, string_of(&c)),
    }
}

/// The decoded frontmatter of a note: the value its frontmatter block's
/// YAML decodes to, none when it has no block or the block does not decode.
pub open spec fn spec_frontmatter(content: Seq<char>) -> Option<FmValue> {
    match spec_split_frontmatter(content).0 {
        Some(yaml) => yaml_value(yaml),
        None => None,
    }
}

/// Splits a note into its decoded frontmatter, if it has a block that
/// decodes, and its body.
pub fn parse_frontmatter(content: &str) -> (r: (Option<FmValue>, String))
    ensures
        r.0 == spec_frontmatter(content@),
        r.1@ == spec_split_frontmatter(content@).1,
        r.1@.is_suffix_of(content@),
{
    let (yaml, body) = split_frontmatter(content);
    let fm = match yaml {
        Some(y) => decode_frontmatter(y.as_str()),
        None => None,
    };
    (fm, body)
}

/// A note split into frontmatter and body, with the body's tags, wikilinks
/// and title.
#[derive(Debug)]
pub struct ParsedNote {
    pub frontmatter: Option<FmValue>,
    pub body: String,
    pub tags: Vec<String>,
    pub links: Vec<WikiLink>,
    pub title: Option<String>,
}

/// Parses a note: its decoded frontmatter, its body, and the body's tags,
/// wikilinks and title.
pub fn parse_note(content: &str) -> (note: ParsedNote)
    ensures
        note.frontmatter == spec_frontmatter(content@),
        note.body@ == spec_split_frontmatter(content@).1,
        note.tags.deep_view() == spec_tags(note.body@),
        link_views(note.links@) == spec_wikilinks(note.body@),
        opt_view(note.title) == spec_title(note.body@),
{
    let (frontmatter, _) = parse_frontmatter(content);
    parse_note_with(content, frontmatter)
}

/// Assembles the parsed note of `content` around a decoded frontmatter
/// value: the value is kept as it is, and tags, wikilinks and title are
/// read from the body.
pub fn parse_note_with(content: &str, frontmatter: Option<FmValue>) -> (note: ParsedNote)
    ensures
        note.frontmatter == frontmatter,
        note.body@ == spec_split_frontmatter(content@).1,
        note.tags.deep_view() == spec_tags(note.body@),
        link_views(note.links@) == spec_wikilinks(note.body@),
        opt_view(note.title) == spec_title(note.body@),
{
    let (_, body) = split_frontmatter(content);
    let tags = extract_tags(body.as_str());
    let links = extract_wikilinks(body.as_str());
    let title = extract_title(body.as_str());
    ParsedNote { frontmatter, body, tags, links, title }
}

/// The pieces of `s` between commas, from index `i` on (`str::split(',')`).
pub open spec fn comma_pieces(s: Seq<char>, i: int) -> Seq<Seq<char>>
    decreases s.len() + 1 - i,
{
    if i < 0 || i > s.len() {
        seq![]
    } else {
        let j = next_index_of(s, i, ',');
        proof {
            lemma_next_index_of(s, i, ',');
        }
        if j < s.len() {
            seq![s.subrange(i, j)] + comma_pieces(s, j + 1)
        } else {
            seq![s.subrange(i, s.len() as int)]
        }
    }
}

/// The trimmed pieces of `ps` from index `i` on that are not empty.
pub open spec fn nonempty_trimmed(ps: Seq<Seq<char>>, i: int) -> Seq<Seq<char>>
    decreases ps.len() - i,
{
    if i < 0 || i >= ps.len() {
        seq![]
    } else if trim(ps[i]).len() > 0 {
        seq![trim(ps[i])] + nonempty_trimmed(ps, i + 1)
    } else {
        nonempty_trimmed(ps, i + 1)
    }
}

/// The string elements of `items` from index `i` on.
pub open spec fn string_items(items: Seq<FmValue>, i: int) -> Seq<Seq<char>>
    decreases items.len() - i,
{
    if i < 0 || i >= items.len() {
        seq![]
    } else {
        match items[i].kind {
            FmKind::Str(s) => seq![s@] + string_items(items, i + 1),
            _ => string_items(items, i + 1),
        }
    }
}

/// The tags listed in a frontmatter value's `tags` field: the string
/// elements of an array, or the non-empty trimmed comma-separated parts
/// of a string.
pub open spec fn spec_frontmatter_tags(fm: FmValue) -> Seq<Seq<char>> {
    match spec_get(fm, "tags"@) {
        Some(v) => match v.kind {
            FmKind::Array(items) => string_items(items@, 0),
            FmKind::Str(s) => nonempty_trimmed(comma_pieces(s@, 0), 0),
            _ => seq![],
        },
        None => seq![],
    }
}

/// The tags listed in the frontmatter's `tags` field, as an array of
/// strings or as one comma-separated string.
pub fn frontmatter_tags(fm: &FmValue) -> (tags: Vec<String>)
    ensures
        tags.deep_view() == spec_frontmatter_tags(*fm),
        (spec_get(*fm, "tags"@) matches Some(v) && v.kind is Str) ==> forall|k: int|
            0 <= k < tags.len() ==> #[trigger] tags.deep_view()[k].len() > 0 && no_outer_space(
                tags.deep_view()[k],
            ),
{
    let mut tags: Vec<String> = Vec::new();
    match get(fm, "tags") {
        Some(v) => match &v.kind {
            FmKind::Array(items) => {
                let mut i: usize = 0;
                assert(tags.deep_view() =~= seq![]);
                while i < items.len()
                    invariant
                        i <= items.len(),
                        tags.deep_view() + string_items(items@, i as int) == string_items(
                            items@,
                            0,
                        ),
                    decreases items.len() - i,
                {
                    let ghost before = tags.deep_view();
                    match &items[i].kind {
                        FmKind::Str(s) => {
                            let c = chars_of(s.as_str());
                            tags.push(string_of(&c));
                            assert(tags.deep_view() =~= before + seq![s@]);
                        },
                        _ => {},
                    }
                    i = i + 1;
                }
                assert(string_items(items@, i as int) =~= seq![]);
                assert(tags.deep_view() + seq![] =~= tags.deep_view());
            },
            FmKind::Str(s) => {
                proof {
                    lemma_frontmatter_tag_list(s@);
                }
                let c = chars_of(s.as_str());
                let mut i: usize = 0;
                assert(tags.deep_view() =~= seq![]);
                loop
                    invariant_except_break
                        c@ == s@,
                        i <= c.len(),
                        tags.deep_view() + nonempty_trimmed(comma_pieces(c@, i as int), 0)
                            == nonempty_trimmed(comma_pieces(c@, 0), 0),
                    ensures
                        tags.deep_view() == nonempty_trimmed(comma_pieces(s@, 0), 0),
                    decreases c.len() - i,
                {
                    let j = find_char(&c, i, ',');
                    proof {
                        lemma_next_index_of(c@, i as int, ',');
                    }
                    let piece = copy_range(&c, i, j);
                    let t = trim_chars(&piece);
                    let ghost before = tags.deep_view();
                    let ghost rest = if j < c.len() {
                        comma_pieces(c@, j + 1)
                    } else {
                        seq![]
                    };
                    let ghost ps = comma_pieces(c@, i as int);
                    assert(ps =~= seq![piece@] + rest);
                    assert(ps[0] == piece@);
                    assert forall|k: int| 0 <= k < rest.len() implies ps[k + 1] == rest[k] by {}
                    proof {
                        lemma_nonempty_trimmed_shift(ps, rest);
                    }
                    if t.len() > 0 {
                        tags.push(string_of(&t));
                        assert(tags.deep_view() =~= before + seq![t@]);
                    }
                    if j >= c.len() {
                        assert(comma_pieces(c@, i as int) =~= seq![piece@]);
                        assert(nonempty_trimmed(Seq::<Seq<char>>::empty(), 0) =~= seq![]);
                        break;
                    }
                    i = j + 1;
                }
            },
            _ => {},
        },
        None => {},
    }
    tags
}

proof fn lemma_nonempty_trimmed_shift(ps: Seq<Seq<char>>, rest: Seq<Seq<char>>)
    requires
        ps.len() == rest.len() + 1,
        forall|k: int| 0 <= k < rest.len() ==> ps[k + 1] == rest[k],
    ensures
        nonempty_trimmed(ps, 0) == (if trim(ps[0]).len() > 0 {
            seq![trim(ps[0])]
        } else {
            seq![]
        }) + nonempty_trimmed(rest, 0),
{
    lemma_nonempty_trimmed_offset(ps, rest, 0);
    if trim(ps[0]).len() > 0 {
    } else {
        assert(seq![] + nonempty_trimmed(rest, 0) =~= nonempty_trimmed(rest, 0));
    }
}

proof fn lemma_nonempty_trimmed_offset(ps: Seq<Seq<char>>, rest: Seq<Seq<char>>, k: int)
    requires
        ps.len() == rest.len() + 1,
        forall|j: int| 0 <= j < rest.len() ==> ps[j + 1] == rest[j],
        0 <= k <= rest.len(),
    ensures
        nonempty_trimmed(ps, k + 1) == nonempty_trimmed(rest, k),
    decreases rest.len() - k,
{
    if k < rest.len() {
        lemma_nonempty_trimmed_offset(ps, rest, k + 1);
    }
}

/// The number of fence lines among the first `i` lines of `ls`.
pub open spec fn fences_before(ls: Seq<Seq<char>>, i: int) -> nat
    decreases i,
{
    if i <= 0 || i > ls.len() {
        0
    } else {
        fences_before(ls, i - 1) + if is_fence(ls[i - 1]) {
            1nat
        } else {
            0nat
        }
    }
}

/// Line `i` of `ls` lies outside code blocks: it is no fence, and an even
/// number of fences comes before it.
pub open spec fn outside_code(ls: Seq<Seq<char>>, i: int) -> bool {
    !is_fence(ls[i]) && fences_before(ls, i) % 2 == 0
}

/// The lines of `ls` from index `i` on that lie outside code blocks.
pub open spec fn lines_outside_code(ls: Seq<Seq<char>>, i: int) -> Seq<Seq<char>>
    decreases ls.len() - i,
{
    if i < 0 || i >= ls.len() {
        seq![]
    } else if outside_code(ls, i) {
        seq![ls[i]] + lines_outside_code(ls, i + 1)
    } else {
        lines_outside_code(ls, i + 1)
    }
}

proof fn lemma_body_lines_from(ls: Seq<Seq<char>>, i: int)
    requires
        0 <= i <= ls.len(),
    ensures
        body_lines_from(ls, i, fences_before(ls, i) % 2 == 1) == lines_outside_code(ls, i),
    decreases ls.len() - i,
{
    if i < ls.len() {
        assert(fences_before(ls, i + 1) == fences_before(ls, i) + if is_fence(ls[i]) {
            1nat
        } else {
            0nat
        });
        lemma_body_lines_from(ls, i + 1);
    }
}

/// A note's body lines are exactly its lines outside fenced code blocks,
/// in order: the lines that are no fence and follow an even number of
/// fences. Wikilinks and tags are read from these lines only.
pub proof fn lemma_body_lines_outside_code(content: Seq<char>)
    ensures
        spec_body_lines(content) == lines_outside_code(lines(content), 0),
{
    lemma_body_lines_from(lines(content), 0);
}

/// The body found by `parse_frontmatter` is the end of the note: the note
/// itself when it has no frontmatter block.
pub proof fn lemma_split_body_is_suffix(c: Seq<char>)
    ensures
        spec_split_frontmatter(c).1.is_suffix_of(c),
        spec_split_frontmatter(c).0 is None ==> spec_split_frontmatter(c).1 == c,
{
    let crlf = starts_with(c, seq!['-', '-', '-', '\r', '\n']);
    if starts_with(c, seq!['-', '-', '-', '\n']) || crlf {
        let a: int = if crlf {
            5
        } else {
            4
        };
        let rest = c.subrange(a, c.len() as int);
        lemma_find_from(rest, seq!['\n', '-', '-', '-', '\n'], 0);
        lemma_find_from(rest, seq!['\n', '-', '-', '-', '\r', '\n'], 0);
        if let Some((ye, bs)) = frontmatter_close(rest) {
            assert(0 <= bs <= rest.len());
            assert(rest.subrange(bs, rest.len() as int) =~= c.subrange(a + bs, c.len() as int));
        }
    }
    assert(c.subrange(0, c.len() as int) =~= c);
}

proof fn lemma_nonempty_trimmed_shape(ps: Seq<Seq<char>>, i: int)
    ensures
        forall|k: int|
            0 <= k < nonempty_trimmed(ps, i).len() ==> #[trigger] nonempty_trimmed(ps, i)[k].len()
                > 0 && no_outer_space(nonempty_trimmed(ps, i)[k]),
    decreases ps.len() - i,
{
    if 0 <= i < ps.len() {
        lemma_nonempty_trimmed_shape(ps, i + 1);
        lemma_trim(ps[i]);
        if trim(ps[i]).len() > 0 {
            assert forall|k: int| 0 <= k < nonempty_trimmed(ps, i).len() implies #[trigger] nonempty_trimmed(ps, i)[k].len()
                > 0 && no_outer_space(nonempty_trimmed(ps, i)[k]) by {
                if k > 0 {
                    assert(nonempty_trimmed(ps, i)[k] == nonempty_trimmed(ps, i + 1)[k - 1]);
                }
            }
        } else {
            assert(nonempty_trimmed(ps, i) == nonempty_trimmed(ps, i + 1));
        }
    }
}

/// Tags given as one comma-separated string come out non-empty and trimmed.
pub proof fn lemma_frontmatter_tag_list(s: Seq<char>)
    ensures
        forall|k: int|
            0 <= k < nonempty_trimmed(comma_pieces(s, 0), 0).len() ==> #[trigger] nonempty_trimmed(
                comma_pieces(s, 0),
                0,
            )[k].len() > 0 && no_outer_space(nonempty_trimmed(comma_pieces(s, 0), 0)[k]),
{
    lemma_nonempty_trimmed_shape(comma_pieces(s, 0), 0);
}

} // verus!
