//! The decisions of the vault tools: what a note read shows, which notes a
//! listing keeps and in what order, which notes link to a note, and which
//! notes a frontmatter query finds.
use vstd::prelude::*;
use vstd::string::StringExecFns;
use crate::frontmatter::{frontmatter_value_matches, get, spec_get, spec_value_matches, FmValue};
use crate::parser::{frontmatter_tags, spec_frontmatter_tags, ParsedNote};
use crate::search::line_strings;
use crate::tags::contains_string;
use crate::text::{
    chars_of, copy_range, find_char, lemma_next_index_of, lines, next_index_of, opt_view,
    string_of,
};
use crate::wikilinks::{extract_wikilinks, link_views, spec_wikilinks, LinkView};
use crate::link_laws::lemma_wikilinks_join;
use crate::parser::fences_before;
use crate::vault::{
    file_stem, path_file_stem, path_same, path_strip_prefix, relative_path, same_path,
};

verus! {

/// The decimal digit `d` as a character.
pub open spec fn digit_char(d: nat) -> char {
    ((48 + d) as u8) as char
}

/// The decimal representation of `n` (as `usize`'s `Display` prints it).
pub open spec fn decimal(n: nat) -> Seq<char>
    decreases n,
{
    if n < 10 {
        seq![digit_char(n)]
    } else {
        decimal(n / 10) + seq![digit_char(n % 10)]
    }
}

/// `n` in decimal.
pub fn decimal_string(n: usize) -> (s: String)
    ensures
        s@ == decimal(n as nat),
{
    let mut m = n;
    let mut acc: Vec<char> = Vec::new();
    while m >= 10
        invariant
            decimal(n as nat) == decimal(m as nat) + acc@,
        decreases m,
    {
        let d = m % 10;
        acc.insert(0, ((48 + d) as u8) as char);
        assert(decimal(m as nat) == decimal((m / 10) as nat) + seq![digit_char((m % 10) as nat)]);
        m = m / 10;
    }
    acc.insert(0, ((48 + m) as u8) as char);
    string_of(&acc)
}

/// Lines joined with line feeds (`[&str]::join("\n")`).
pub open spec fn join_lines(ls: Seq<Seq<char>>) -> Seq<char>
    decreases ls.len(),
{
    if ls.len() == 0 {
        seq![]
    } else if ls.len() == 1 {
        ls[0]
    } else {
        join_lines(ls.drop_last()) + seq!['\n'] + ls.last()
    }
}

/// The body a note read returns: empty for a metadata-only read; else, when
/// `max_lines` is given and the body has more lines, its first `max_lines`
/// lines followed by a count of the lines left out; else the whole body.
pub open spec fn spec_body_view(
    body: Seq<char>,
    max_lines: Option<usize>,
    metadata_only: Option<bool>,
) -> Seq<char> {
    if metadata_only == Some(true) {
        seq![]
    } else {
        match max_lines {
            Some(max) => {
                let ls = lines(body);
                if ls.len() > max {
                    join_lines(ls.take(max as int)) + "\n\n... ("@ + decimal(
                        (ls.len() - max) as nat,
                    ) + " more lines)"@
                } else {
                    body
                }
            },
            None => body,
        }
    }
}

/// The body to return for a note read.
pub fn body_view(body: String, max_lines: Option<usize>, metadata_only: Option<bool>) -> (r: String)
    ensures
        r@ == spec_body_view(body@, max_lines, metadata_only),
{
    let metadata = match metadata_only {
        Some(b) => b,
        None => false,
    };
    if metadata {
        return String::new();
    }
    match max_lines {
        Some(max) => {
            let ls = line_strings(body.as_str());
            if ls.len() > max {
                let mut r = String::new();
                let mut i: usize = 0;
                while i < max
                    invariant
                        max < ls.len(),
                        i <= max,
                        ls.deep_view() == lines(body@),
                        i == 0 ==> r@ == Seq::<char>::empty(),
                        i > 0 ==> r@ == join_lines(ls.deep_view().take(i as int)),
                    decreases max - i,
                {
                    let ghost t = ls.deep_view().take(i + 1);
                    assert(t.drop_last() =~= ls.deep_view().take(i as int));
                    if i > 0 {
                        r.append("\n");
                        proof {
                            reveal_strlit("\n");
                        }
                    }
                    r.append(ls[i].as_str());
                    proof {
                        if i == 0 {
                            assert(r@ =~= t[0]);
                        } else {
                            assert(r@ =~= join_lines(t.drop_last()) + seq!['\n'] + t.last());
                        }
                    }
                    i = i + 1;
                }
                r.append("\n\n... (");
                let count = decimal_string(ls.len() - max);
                r.append(count.as_str());
                r.append(" more lines)");
                proof {
                    if max == 0 {
                        assert(ls.deep_view().take(0) =~= Seq::<Seq<char>>::empty());
                    }
                }
                r
            } else {
                body
            }
        },
        None => body,
    }
}

/// Lexicographic order of character sequences by code point, which is
/// the byte order `String`'s `Ord` uses for UTF-8 text.
pub open spec fn lex_lt(a: Seq<char>, b: Seq<char>) -> bool
    decreases a.len(),
{
    if a.len() == 0 {
        b.len() > 0
    } else if b.len() == 0 {
        false
    } else if a[0] != b[0] {
        a[0] < b[0]
    } else {
        lex_lt(a.drop_first(), b.drop_first())
    }
}

/// `lex_lt` is a strict total order.
pub proof fn lemma_lex_total(a: Seq<char>, b: Seq<char>)
    ensures
        !lex_lt(a, a),
        !(lex_lt(a, b) && lex_lt(b, a)),
        a != b ==> lex_lt(a, b) || lex_lt(b, a),
    decreases a.len(),
{
    if a.len() > 0 {
        lemma_lex_total(a.drop_first(), a.drop_first());
    }
    if a.len() > 0 && b.len() > 0 {
        if a[0] == b[0] {
            lemma_lex_total(a.drop_first(), b.drop_first());
            if a != b {
                assert(a.drop_first() != b.drop_first()) by {
                    if a.drop_first() == b.drop_first() {
                        assert(a =~= seq![a[0]] + a.drop_first());
                        assert(b =~= seq![b[0]] + b.drop_first());
                    }
                }
            }
        }
    } else if a.len() == 0 && b.len() == 0 {
        assert(a =~= b);
    }
}

pub proof fn lemma_lex_trans(a: Seq<char>, b: Seq<char>, c: Seq<char>)
    requires
        lex_lt(a, b),
        lex_lt(b, c),
    ensures
        lex_lt(a, c),
    decreases a.len(),
{
    if a.len() > 0 && b.len() > 0 && c.len() > 0 && a[0] == b[0] && b[0] == c[0] {
        lemma_lex_trans(a.drop_first(), b.drop_first(), c.drop_first());
    }
}

/// From `a < b` and `b <= c` follows `a < c`.
pub proof fn lemma_lex_lt_le(a: Seq<char>, b: Seq<char>, c: Seq<char>)
    requires
        lex_lt(a, b),
        !lex_lt(c, b),
    ensures
        lex_lt(a, c),
{
    lemma_lex_total(b, c);
    if b != c {
        lemma_lex_trans(a, b, c);
    }
}

/// Whether two character vectors are in `lex_lt` order.
pub fn chars_lt(a: &Vec<char>, b: &Vec<char>) -> (r: bool)
    ensures
        r == lex_lt(a@, b@),
{
    let mut i: usize = 0;
    assert(a@.skip(0) =~= a@ && b@.skip(0) =~= b@);
    while i < a.len() && i < b.len() && a[i] == b[i]
        invariant
            i <= a.len(),
            i <= b.len(),
            lex_lt(a@, b@) == lex_lt(a@.skip(i as int), b@.skip(i as int)),
        decreases a.len() - i,
    {
        assert(a@.skip(i as int).drop_first() =~= a@.skip(i + 1));
        assert(b@.skip(i as int).drop_first() =~= b@.skip(i + 1));
        i = i + 1;
    }
    if i == a.len() {
        i < b.len()
    } else if i == b.len() {
        false
    } else {
        a[i] < b[i]
    }
}

/// A listing entry: a note's path relative to the vault, its title and tags.
#[derive(Debug)]
pub struct NoteEntry {
    pub path: String,
    pub title: Option<String>,
    pub tags: Vec<String>,
}

/// A listing entry as character sequences.
pub struct EntryView {
    pub path: Seq<char>,
    pub title: Option<Seq<char>>,
    pub tags: Seq<Seq<char>>,
}

impl View for NoteEntry {
    type V = EntryView;

    open spec fn view(&self) -> EntryView {
        EntryView { path: self.path@, title: opt_view(self.title), tags: self.tags.deep_view() }
    }
}

pub open spec fn entry_views(v: Seq<NoteEntry>) -> Seq<EntryView> {
    v.map_values(|e: NoteEntry| e@)
}

/// Entries in order of path, equal paths in their given order.
pub open spec fn path_sorted(s: Seq<EntryView>) -> bool {
    forall|i: int, j: int| 0 <= i < j < s.len() ==> !lex_lt(#[trigger] s[j].path, #[trigger] s[i].path)
}

/// Where a stable insertion puts an entry with path `x` into `s`: before
/// the first entry, from index `i` on, whose path is greater.
pub open spec fn insert_pos(s: Seq<EntryView>, x: Seq<char>, i: int) -> int
    decreases s.len() - i,
{
    if i < 0 || i >= s.len() {
        s.len() as int
    } else if lex_lt(x, s[i].path) {
        i
    } else {
        insert_pos(s, x, i + 1)
    }
}

/// `s` sorted by path, stably (what `sort_by` on the path yields).
pub open spec fn sorted_by_path(s: Seq<EntryView>) -> Seq<EntryView>
    decreases s.len(),
{
    if s.len() == 0 {
        seq![]
    } else {
        let r = sorted_by_path(s.drop_last());
        r.insert(insert_pos(r, s.last().path, 0), s.last())
    }
}

proof fn lemma_insert_pos_is(s: Seq<EntryView>, x: Seq<char>, lo: int, i: int)
    requires
        0 <= i <= lo <= s.len(),
        forall|k: int| 0 <= k < lo ==> !lex_lt(x, #[trigger] s[k].path),
        lo < s.len() ==> lex_lt(x, s[lo].path),
    ensures
        insert_pos(s, x, i) == lo,
    decreases lo - i,
{
    if i < lo {
        lemma_insert_pos_is(s, x, lo, i + 1);
    }
}

proof fn lemma_insert_pos_bounds(s: Seq<EntryView>, x: Seq<char>, i: int)
    requires
        0 <= i <= s.len(),
    ensures
        i <= insert_pos(s, x, i) <= s.len(),
        forall|k: int| i <= k < insert_pos(s, x, i) ==> !lex_lt(x, #[trigger] s[k].path),
        insert_pos(s, x, i) < s.len() ==> lex_lt(x, s[insert_pos(s, x, i)].path),
    decreases s.len() - i,
{
    if i < s.len() && !lex_lt(x, s[i].path) {
        lemma_insert_pos_bounds(s, x, i + 1);
    }
}

proof fn lemma_insert_sorted(s: Seq<EntryView>, x: EntryView)
    requires
        path_sorted(s),
    ensures
        path_sorted(s.insert(insert_pos(s, x.path, 0), x)),
{
    lemma_insert_pos_bounds(s, x.path, 0);
    let p = insert_pos(s, x.path, 0);
    let t = s.insert(p, x);
    assert forall|i: int, j: int| 0 <= i < j < t.len() implies !lex_lt(
        #[trigger] t[j].path,
        #[trigger] t[i].path,
    ) by {
        if i < p && j == p {
            assert(!lex_lt(x.path, s[i].path));
        } else if i == p {
            let sj = s[j - 1].path;
            assert(lex_lt(x.path, s[p].path));
            if j - 1 > p {
                assert(!lex_lt(sj, s[p].path));
                lemma_lex_lt_le(x.path, s[p].path, sj);
            }
            lemma_lex_total(x.path, sj);
        } else if i < p && j < p {
            assert(t[i] == s[i] && t[j] == s[j]);
        } else if i < p {
            assert(t[i] == s[i] && t[j] == s[j - 1]);
        } else {
            assert(t[i] == s[i - 1] && t[j] == s[j - 1]);
        }
    }
}

/// Sorting by path orders the entries by path and keeps exactly the
/// entries given.
pub proof fn lemma_sorted_by_path(s: Seq<EntryView>)
    ensures
        path_sorted(sorted_by_path(s)),
        sorted_by_path(s).len() == s.len(),
        sorted_by_path(s).to_multiset() == s.to_multiset(),
    decreases s.len(),
{
    broadcast use vstd::seq_lib::to_multiset_build, vstd::seq_lib::to_multiset_insert;

    if s.len() > 0 {
        lemma_sorted_by_path(s.drop_last());
        lemma_insert_sorted(sorted_by_path(s.drop_last()), s.last());
        lemma_insert_pos_bounds(sorted_by_path(s.drop_last()), s.last().path, 0);
        assert(s =~= s.drop_last().push(s.last()));
    } else {
        assert(sorted_by_path(s) =~= s);
    }
}

/// The index where an entry with path `x` goes into the sorted `v`.
fn insertion_point(v: &Vec<NoteEntry>, x: &Vec<char>) -> (k: usize)
    requires
        path_sorted(entry_views(v@)),
    ensures
        k == insert_pos(entry_views(v@), x@, 0),
{
    let ghost s = entry_views(v@);
    let mut lo: usize = 0;
    let mut hi: usize = v.len();
    while lo < hi
        invariant
            s == entry_views(v@),
            path_sorted(s),
            lo <= hi <= v.len(),
            forall|k: int| 0 <= k < lo ==> !lex_lt(x@, #[trigger] s[k].path),
            forall|k: int| hi <= k < v.len() ==> lex_lt(x@, #[trigger] s[k].path),
        decreases hi - lo,
    {
        let mid = lo + (hi - lo) / 2;
        let key = chars_of(v[mid].path.as_str());
        assert(key@ == s[mid as int].path);
        if chars_lt(x, &key) {
            assert forall|k: int| mid <= k < v.len() implies lex_lt(x@, #[trigger] s[k].path) by {
                if k > mid {
                    assert(!lex_lt(s[k].path, s[mid as int].path));
                    lemma_lex_lt_le(x@, s[mid as int].path, s[k].path);
                }
            }
            hi = mid;
        } else {
            assert forall|k: int| 0 <= k < mid + 1 implies !lex_lt(x@, #[trigger] s[k].path) by {
                if k < mid {
                    assert(!lex_lt(s[mid as int].path, s[k].path));
                    if lex_lt(x@, s[k].path) {
                        lemma_lex_lt_le(x@, s[k].path, s[mid as int].path);
                    }
                }
            }
            lo = mid + 1;
        }
    }
    proof {
        lemma_insert_pos_is(s, x@, lo as int, 0);
    }
    lo
}

/// Sorts listing entries by path, keeping entries with equal paths in
/// their given order.
pub fn sort_entries(entries: Vec<NoteEntry>) -> (r: Vec<NoteEntry>)
    ensures
        entry_views(r@) == sorted_by_path(entry_views(entries@)),
        path_sorted(entry_views(r@)),
        entry_views(r@).to_multiset() == entry_views(entries@).to_multiset(),
{
    proof {
        lemma_sorted_by_path(entry_views(entries@));
    }
    let ghost orig = entry_views(entries@);
    let n = entries.len();
    let mut rest = entries;
    let mut sorted: Vec<NoteEntry> = Vec::new();
    let mut k: usize = 0;
    while k < n
        invariant
            n == orig.len(),
            k <= n,
            entry_views(rest@) == orig.subrange(k as int, n as int),
            rest.len() == n - k,
            entry_views(sorted@) == sorted_by_path(orig.take(k as int)),
        decreases n - k,
    {
        proof {
            lemma_sorted_by_path(orig.take(k as int));
        }
        let ghost before = entry_views(sorted@);
        let ghost old_rest = rest@;
        assert(entry_views(old_rest)[0] == orig.subrange(k as int, n as int)[0]);
        let e = rest.remove(0);
        assert(e == old_rest[0]);
        assert(e@ == orig[k as int]);
        assert(rest@ =~= old_rest.subrange(1, old_rest.len() as int));
        assert forall|j: int| 0 <= j < rest.len() implies entry_views(rest@)[j] == orig[k + 1
            + j] by {
            assert(entry_views(rest@)[j] == rest@[j]@);
            assert(rest@[j] == old_rest[j + 1]);
            assert(entry_views(old_rest)[j + 1] == orig.subrange(k as int, n as int)[j + 1]);
        }
        assert(entry_views(rest@) =~= orig.subrange(k + 1, n as int));
        let key = chars_of(e.path.as_str());
        let p = insertion_point(&sorted, &key);
        proof {
            lemma_insert_pos_bounds(before, key@, 0);
        }
        sorted.insert(p, e);
        proof {
            assert(orig.take(k + 1).drop_last() =~= orig.take(k as int));
            assert(orig.take(k + 1).last() == e@);
            assert(entry_views(sorted@) =~= before.insert(p as int, e@));
        }
        k = k + 1;
    }
    assert(orig.take(n as int) =~= orig);
    sorted
}

/// The filters of a listing: an inline or frontmatter tag, and a
/// frontmatter `key=value` pair.
#[derive(Debug)]
pub struct ListFilter {
    pub tag: Option<String>,
    pub frontmatter: Option<(String, String)>,
}

/// `s` split at its first `=` (`str::split_once('=')`).
pub open spec fn split_at_eq(s: Seq<char>) -> Option<(Seq<char>, Seq<char>)> {
    let j = next_index_of(s, 0, '=');
    if j < s.len() {
        Some((s.subrange(0, j), s.subrange(j + 1, s.len() as int)))
    } else {
        None
    }
}

pub open spec fn pair_view(p: Option<(String, String)>) -> Option<(Seq<char>, Seq<char>)> {
    match p {
        Some((k, v)) => Some((k@, v@)),
        None => None,
    }
}

/// The filters of a listing, from the tool's parameters; a frontmatter
/// filter without `=` filters nothing.
pub fn list_filter(tag: Option<String>, frontmatter_filter: Option<String>) -> (f: ListFilter)
    ensures
        opt_view(f.tag) == opt_view(tag),
        pair_view(f.frontmatter) == match frontmatter_filter {
            Some(s) => split_at_eq(s@),
            None => None,
        },
{
    let frontmatter = match frontmatter_filter {
        Some(s) => {
            let c = chars_of(s.as_str());
            let j = find_char(&c, 0, '=');
            proof {
                lemma_next_index_of(c@, 0, '=');
            }
            if j < c.len() {
                let k = copy_range(&c, 0, j);
                let v = copy_range(&c, j + 1, c.len());
                Some((string_of(&k), string_of(&v)))
            } else {
                None
            }
        },
        None => None,
    };
    ListFilter { tag, frontmatter }
}

pub open spec fn filter_active(f: ListFilter) -> bool {
    f.tag is Some || f.frontmatter is Some
}

/// Whether a parsed note passes the filters: it carries the tag inline or
/// in its frontmatter, and its frontmatter field matches the value.
pub open spec fn passes_filter(f: ListFilter, note: ParsedNote) -> bool {
    &&& match f.tag {
        Some(t) => note.tags.deep_view().contains(t@) || match note.frontmatter {
            Some(fm) => spec_frontmatter_tags(fm).contains(t@),
            None => false,
        },
        None => true,
    }
    &&& match f.frontmatter {
        Some((k, v)) => match note.frontmatter {
            Some(fm) => match spec_get(fm, k@) {
                Some(field) => spec_value_matches(field, v@),
                None => false,
            },
            None => false,
        },
        None => true,
    }
}

impl ListFilter {
    /// Whether any filter is set, so that notes must be read and parsed.
    pub fn is_active(&self) -> (b: bool)
        ensures
            b == filter_active(*self),
    {
        self.tag.is_some() || self.frontmatter.is_some()
    }

    /// Whether a parsed note passes the filters.
    pub fn passes(&self, note: &ParsedNote) -> (b: bool)
        ensures
            b == passes_filter(*self, *note),
    {
        match &self.tag {
            Some(t) => {
                let inline = contains_string(&note.tags, t);
                let in_fm = match &note.frontmatter {
                    Some(fm) => {
                        let fm_tags = frontmatter_tags(fm);
                        contains_string(&fm_tags, t)
                    },
                    None => false,
                };
                if !inline && !in_fm {
                    return false;
                }
            },
            None => {},
        }
        match &self.frontmatter {
            Some((k, v)) => match &note.frontmatter {
                Some(fm) => match get(fm, k.as_str()) {
                    Some(field) => frontmatter_value_matches(field, v.as_str()),
                    None => false,
                },
                None => false,
            },
            None => true,
        }
    }
}

/// A note offered to a listing: its full path and, when the listing
/// filters, the parsed note (none when it could not be read).
#[derive(Debug)]
pub struct NoteSource {
    pub path: String,
    pub note: Option<ParsedNote>,
}

/// The path of `full` relative to `root`, as `relative_path` gives it.
pub open spec fn rel_path(root: Seq<char>, full: Seq<char>) -> Seq<char> {
    match path_strip_prefix(full, root) {
        Some(rest) => rest,
        None => full,
    }
}

/// The listing entry for a note, if the listing keeps it: without filters
/// every note, titled by its file stem; with filters the notes read that
/// pass them, titled by their heading or else their file stem, with tags.
pub open spec fn spec_entry(root: Seq<char>, f: ListFilter, src: NoteSource) -> Option<EntryView> {
    let path = rel_path(root, src.path@);
    let stem = path_file_stem(src.path@);
    if filter_active(f) {
        match src.note {
            Some(note) => if passes_filter(f, note) {
                Some(
                    EntryView {
                        path,
                        title: match opt_view(note.title) {
                            Some(t) => Some(t),
                            None => stem,
                        },
                        tags: note.tags.deep_view(),
                    },
                )
            } else {
                None
            },
            None => None,
        }
    } else {
        Some(EntryView { path, title: stem, tags: seq![] })
    }
}

/// The entries kept for `srcs` from index `i` on, in order.
pub open spec fn entries_from(root: Seq<char>, f: ListFilter, srcs: Seq<NoteSource>, i: int) -> Seq<
    EntryView,
>
    decreases srcs.len() - i,
{
    if i < 0 || i >= srcs.len() {
        seq![]
    } else {
        match spec_entry(root, f, srcs[i]) {
            Some(e) => seq![e] + entries_from(root, f, srcs, i + 1),
            None => entries_from(root, f, srcs, i + 1),
        }
    }
}

/// The listing entry for one note.
fn entry_for(vault_root: &str, filter: &ListFilter, src: NoteSource) -> (r: Option<NoteEntry>)
    ensures
        match r {
            Some(e) => spec_entry(vault_root@, *filter, src) == Some(e@),
            None => spec_entry(vault_root@, *filter, src) is None,
        },
{
    let path = relative_path(vault_root, src.path.as_str());
    let stem = file_stem(src.path.as_str());
    if filter.is_active() {
        match src.note {
            Some(note) => {
                if filter.passes(&note) {
                    let title = match note.title {
                        Some(t) => Some(t),
                        None => stem,
                    };
                    Some(NoteEntry { path, title, tags: note.tags })
                } else {
                    None
                }
            },
            None => None,
        }
    } else {
        let tags: Vec<String> = Vec::new();
        assert(tags.deep_view() =~= seq![]);
        Some(NoteEntry { path, title: stem, tags })
    }
}

/// The listing of a vault's notes: the entries kept, sorted by path.
pub fn list_notes(vault_root: &str, filter: &ListFilter, notes: Vec<NoteSource>) -> (r: Vec<
    NoteEntry,
>)
    ensures
        entry_views(r@) == sorted_by_path(entries_from(vault_root@, *filter, notes@, 0)),
        path_sorted(entry_views(r@)),
        entry_views(r@).to_multiset() == entries_from(vault_root@, *filter, notes@, 0).to_multiset(),
{
    let ghost srcs = notes@;
    let n = notes.len();
    let mut rest = notes;
    let mut entries: Vec<NoteEntry> = Vec::new();
    let mut k: usize = 0;
    while k < n
        invariant
            n == srcs.len(),
            k <= n,
            rest@ == srcs.subrange(k as int, n as int),
            entry_views(entries@) + entries_from(vault_root@, *filter, srcs, k as int)
                == entries_from(vault_root@, *filter, srcs, 0),
        decreases n - k,
    {
        let ghost before = entry_views(entries@);
        assert(rest@[0] == srcs[k as int]);
        let src = rest.remove(0);
        assert(rest@ =~= srcs.subrange(k + 1, n as int));
        match entry_for(vault_root, filter, src) {
            Some(e) => {
                entries.push(e);
                assert(entry_views(entries@) =~= before + seq![e@]);
            },
            None => {},
        }
        k = k + 1;
    }
    assert(entries_from(vault_root@, *filter, srcs, k as int) =~= seq![]);
    assert(entry_views(entries@) + seq![] =~= entry_views(entries@));
    sort_entries(entries)
}

proof fn lemma_entries_from(root: Seq<char>, f: ListFilter, srcs: Seq<NoteSource>, i: int)
    requires
        0 <= i <= srcs.len(),
    ensures
        forall|e: EntryView| #[trigger]
            entries_from(root, f, srcs, i).contains(e) <==> exists|j: int|
                i <= j < srcs.len() && spec_entry(root, f, #[trigger] srcs[j]) == Some(e),
        !filter_active(f) ==> entries_from(root, f, srcs, i).len() == srcs.len() - i,
    decreases srcs.len() - i,
{
    if i < srcs.len() {
        lemma_entries_from(root, f, srcs, i + 1);
        let rest = entries_from(root, f, srcs, i + 1);
        assert forall|e: EntryView| #[trigger]
            entries_from(root, f, srcs, i).contains(e) <==> exists|j: int|
                i <= j < srcs.len() && spec_entry(root, f, #[trigger] srcs[j]) == Some(e) by {
            match spec_entry(root, f, srcs[i]) {
                Some(x) => {
                    let all = seq![x] + rest;
                    assert(entries_from(root, f, srcs, i) == all);
                    if all.contains(e) {
                        let k = choose|k: int| 0 <= k < all.len() && all[k] == e;
                        if k > 0 {
                            assert(rest[k - 1] == e);
                            assert(rest.contains(e));
                        } else {
                            assert(spec_entry(root, f, srcs[i]) == Some(e));
                        }
                    }
                    if exists|j: int| i <= j < srcs.len() && spec_entry(root, f, #[trigger] srcs[j]) == Some(e) {
                        let j = choose|j: int| i <= j < srcs.len() && spec_entry(root, f, #[trigger] srcs[j]) == Some(e);
                        if j == i {
                            assert(all[0] == e);
                        } else {
                            assert(rest.contains(e));
                            let k = choose|k: int| 0 <= k < rest.len() && rest[k] == e;
                            assert(all[k + 1] == e);
                        }
                    }
                },
                None => {
                    if exists|j: int| i <= j < srcs.len() && spec_entry(root, f, #[trigger] srcs[j]) == Some(e) {
                        let j = choose|j: int| i <= j < srcs.len() && spec_entry(root, f, #[trigger] srcs[j]) == Some(e);
                        assert(j != i);
                    }
                },
            }
        }
    }
}

/// What a listing holds: an entry exactly when some note offered yields it
/// (`spec_entry`: without filters every note, by its relative path and file
/// stem, with no tags; with filters the notes read that pass them), and
/// without filters one entry for each note offered.
pub proof fn lemma_listing(root: Seq<char>, f: ListFilter, srcs: Seq<NoteSource>)
    ensures
        forall|e: EntryView| #[trigger]
            sorted_by_path(entries_from(root, f, srcs, 0)).contains(e) <==> exists|j: int|
                0 <= j < srcs.len() && spec_entry(root, f, #[trigger] srcs[j]) == Some(e),
        !filter_active(f) ==> sorted_by_path(entries_from(root, f, srcs, 0)).len() == srcs.len(),
{
    broadcast use vstd::seq_lib::to_multiset_contains;

    let es = entries_from(root, f, srcs, 0);
    lemma_entries_from(root, f, srcs, 0);
    lemma_sorted_by_path(es);
    assert forall|e: EntryView| #[trigger] sorted_by_path(es).contains(e) <==> es.contains(e) by {
        assert(sorted_by_path(es).to_multiset().count(e) == es.to_multiset().count(e));
    }
}

/// The name a note is linked by: its file stem, or empty when it has none.
pub open spec fn spec_link_name(path: Seq<char>) -> Seq<char> {
    match path_file_stem(path) {
        Some(s) => s,
        None => seq![],
    }
}

/// The name other notes link to the note at `path` by.
pub fn link_name(path: &str) -> (r: String)
    ensures
        r@ == spec_link_name(path@),
{
    match file_stem(path) {
        Some(s) => s,
        None => String::new(),
    }
}

/// Whether the note text `content` has a wikilink whose target is `name`.
pub open spec fn spec_links_back(content: Seq<char>, name: Seq<char>) -> bool {
    exists|i: int| 0 <= i < spec_wikilinks(content).len() && #[trigger] spec_wikilinks(content)[i].target == name
}

/// Whether a note's text links to the note named `name` (a backlink).
pub fn links_back(content: &str, name: &str) -> (b: bool)
    ensures
        b == spec_links_back(content@, name@),
{
    let links = extract_wikilinks(content);
    let ghost lv = link_views(links@);
    let mut i: usize = 0;
    while i < links.len()
        invariant
            i <= links.len(),
            lv == link_views(links@),
            lv == spec_wikilinks(content@),
            forall|j: int| 0 <= j < i ==> lv[j].target != name@,
        decreases links.len() - i,
    {
        assert(lv[i as int] == links@[i as int]@);
        if crate::frontmatter::string_eq_str(&links[i].target, name) {
            assert(spec_wikilinks(content@)[i as int].target == name@);
            return true;
        }
        i = i + 1;
    }
    false
}

/// Whether the note at `other_path`, with text `other_content`, is a
/// backlink of the note at `note_path` named `name`: it is another note
/// and links to that name. A note is never its own backlink.
pub fn is_backlink(note_path: &str, name: &str, other_path: &str, other_content: &str) -> (b: bool)
    ensures
        b == (!path_same(other_path@, note_path@) && spec_links_back(other_content@, name@)),
{
    !same_path(other_path, note_path) && links_back(other_content, name)
}

/// Whether a note's frontmatter has field `key` and, when a value is
/// asked for, that field matches it.
pub open spec fn spec_query_matches(
    frontmatter: Option<FmValue>,
    key: Seq<char>,
    value: Option<Seq<char>>,
) -> bool {
    match frontmatter {
        Some(fm) => match spec_get(fm, key) {
            Some(field) => match value {
                Some(v) => spec_value_matches(field, v),
                None => true,
            },
            None => false,
        },
        None => false,
    }
}

/// Whether a note is found by a frontmatter query for `key` (and `value`).
pub fn query_matches(frontmatter: &Option<FmValue>, key: &str, value: Option<&str>) -> (b: bool)
    ensures
        b == spec_query_matches(
            *frontmatter,
            key@,
            match value {
                Some(v) => Some(v@),
                None => None,
            },
        ),
{
    match frontmatter {
        Some(fm) => match get(fm, key) {
            Some(field) => match value {
                Some(v) => frontmatter_value_matches(field, v),
                None => true,
            },
            None => false,
        },
        None => false,
    }
}

/// A note links back to a name exactly when some wikilink of the note, at
/// any position, has that name as its target.
pub proof fn lemma_links_back_any_link(content: Seq<char>, name: Seq<char>)
    ensures
        forall|i: int|
            0 <= i < spec_wikilinks(content).len() && #[trigger] spec_wikilinks(content)[i].target
                == name ==> spec_links_back(content, name),
        spec_links_back(content, name) ==> exists|i: int|
            0 <= i < spec_wikilinks(content).len() && #[trigger] spec_wikilinks(content)[i].target
                == name,
{
}

/// Two notes joined by a line break link back to a name exactly when one
/// of them does (the first leaving no fenced code block open).
pub proof fn lemma_links_back_join(a: Seq<char>, b: Seq<char>, name: Seq<char>)
    requires
        fences_before(crate::text::lines(a), crate::text::lines(a).len() as int) % 2 == 0,
    ensures
        spec_links_back(a + seq!['\n'] + b, name) <==> spec_links_back(a, name) || spec_links_back(
            b,
            name,
        ),
{
    lemma_wikilinks_join(a, b);
    let la = spec_wikilinks(a);
    let lb = spec_wikilinks(b);
    let l = spec_wikilinks(a + seq!['\n'] + b);
    assert(l == la + lb);
    lemma_links_back_any_link(a, name);
    lemma_links_back_any_link(b, name);
    lemma_links_back_any_link(a + seq!['\n'] + b, name);
    if spec_links_back(a + seq!['\n'] + b, name) {
        let i = choose|i: int| 0 <= i < l.len() && #[trigger] l[i].target == name;
        if i < la.len() {
            assert(la[i] == l[i]);
        } else {
            assert(lb[i - la.len()] == l[i]);
        }
    }
    if spec_links_back(a, name) {
        let i = choose|i: int| 0 <= i < la.len() && #[trigger] la[i].target == name;
        assert(l[i] == la[i]);
    }
    if spec_links_back(b, name) {
        let i = choose|i: int| 0 <= i < lb.len() && #[trigger] lb[i].target == name;
        assert(l[la.len() + i] == lb[i]);
    }
}

/// A note passes the listing filters exactly when it passes each filter
/// that is set: it carries the tag, inline or in its frontmatter tags, and
/// its frontmatter field matches the value. Passing one filter is not
/// enough when both are set.
pub proof fn lemma_passes_each_filter(f: ListFilter, note: ParsedNote)
    ensures
        passes_filter(f, note) <==> ((f.tag matches Some(t) ==> (note.tags.deep_view().contains(t@)
            || (note.frontmatter matches Some(fm) && spec_frontmatter_tags(fm).contains(t@)))) && (
        f.frontmatter matches Some((k, v)) ==> (note.frontmatter matches Some(fm) && spec_get(
            fm,
            k@,
        ) matches Some(field) && spec_value_matches(field, v@)))),
{
}

/// Every entry of a filtered listing comes from a note that was read and
/// passes the filters (each filter that is set, by
/// `lemma_passes_each_filter`), and the entry carries that note's relative
/// path and inline tags.
pub proof fn lemma_filtered_listing(root: Seq<char>, f: ListFilter, srcs: Seq<NoteSource>)
    requires
        filter_active(f),
    ensures
        forall|e: EntryView| #[trigger]
            sorted_by_path(entries_from(root, f, srcs, 0)).contains(e) ==> exists|j: int|
                #![trigger srcs[j]]
                {
                    &&& 0 <= j < srcs.len()
                    &&& srcs[j].note matches Some(n)
                    &&& e.path == rel_path(root, srcs[j].path@)
                    &&& e.tags == n.tags.deep_view()
                    &&& passes_filter(f, n)
                },
{
    lemma_listing(root, f, srcs);
    assert forall|e: EntryView| #[trigger]
        sorted_by_path(entries_from(root, f, srcs, 0)).contains(e) implies exists|j: int|
            #![trigger srcs[j]]
            {
                &&& 0 <= j < srcs.len()
                &&& srcs[j].note matches Some(n)
                &&& e.path == rel_path(root, srcs[j].path@)
                &&& e.tags == n.tags.deep_view()
                &&& passes_filter(f, n)
            } by {
        let j = choose|j: int| 0 <= j < srcs.len() && spec_entry(root, f, #[trigger] srcs[j]) == Some(e);
        assert(srcs[j].note is Some);
    }
}

} // verus!
