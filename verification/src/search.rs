//! Searching notes for a user's pattern, line by line, with context.
//!
//! Patterns are compiled and matched by the `regex` crate; what a pattern
//! matches is named (`regex_matches`) and not restated here.
use vstd::prelude::*;
use crate::text::{chars_of, lines, seq_views, split_lines, string_of};

verus! {

#[verifier::external_type_specification]
#[verifier::external_body]
pub struct ExRegex(regex::Regex);

/// Whether `regex::Regex::new` accepts `pattern` (it is valid and the
/// compiled program fits the default size limit).
pub uninterp spec fn regex_compiles(pattern: Seq<char>) -> bool;

/// Whether the regex compiled from `pattern` matches somewhere in
/// `haystack` (`Regex::is_match`).
pub uninterp spec fn regex_matches(pattern: Seq<char>, haystack: Seq<char>) -> bool;

/// The characters that `regex::escape` escapes.
pub open spec fn is_regex_meta(c: char) -> bool {
    c == '\\' || c == '.' || c == '+' || c == '*' || c == '?' || c == '(' || c == ')' || c == '|'
        || c == '[' || c == ']' || c == '{' || c == '}' || c == '^' || c == '$' || c == '#' || c
        == '&' || c == '-' || c == '~'
}

/// `text` with a backslash put before each regex meta character.
pub open spec fn escaped(text: Seq<char>) -> Seq<char>
    decreases text.len(),
{
    if text.len() == 0 {
        seq![]
    } else {
        (if is_regex_meta(text[0]) {
            seq!['\\', text[0]]
        } else {
            seq![text[0]]
        }) + escaped(text.drop_first())
    }
}

/// A compiled search pattern and the pattern text it was compiled from.
/// Only `compile` builds one, so `regex` is always `source` compiled.
pub struct SearchPattern {
    source: String,
    regex: regex::Regex,
}

impl SearchPattern {
    /// The pattern text this was compiled from.
    pub closed spec fn source(&self) -> Seq<char> {
        self.source@
    }

    /// Calls `Regex::is_match` on the compiled pattern; the answer is named
    /// `regex_matches(source, haystack)`.
    #[verifier::external_body]
    fn is_match(&self, haystack: &str) -> (b: bool)
        ensures
            b == regex_matches(self.source(), haystack@),
    {
        self.regex.is_match(haystack)
    }
}

/// Calls `regex::Regex::new`: a pattern is returned exactly when the text
/// compiles (named `regex_compiles`), and it keeps the text it came from.
#[verifier::external_body]
fn compile(pattern: &str) -> (r: Option<SearchPattern>)
    ensures
        r is Some == regex_compiles(pattern@),
        r matches Some(p) ==> p.source() == pattern@,
{
    match regex::Regex::new(pattern) {
        Ok(regex) => Some(SearchPattern { source: pattern.to_owned(), regex }),
        Err(_) => None,
    }
}

/// Calls `regex::escape`, which puts a backslash before every meta
/// character (`regex_syntax::is_meta_character`) and keeps the others.
#[verifier::external_body]
fn escape(text: &str) -> (r: String)
    ensures
        r@ == escaped(text@),
{
    regex::escape(text)
}

/// The pattern a search query stands for: the query itself when it is a
/// valid regex, else the query taken literally.
pub open spec fn query_source(query: Seq<char>) -> Seq<char> {
    if regex_compiles(query) {
        query
    } else {
        escaped(query)
    }
}

/// Compiles a search query as a regex, or, when it is not one, as the
/// literal text. None only when neither compiles.
pub fn compile_query(query: &str) -> (r: Option<SearchPattern>)
    ensures
        r matches Some(p) ==> p.source() == query_source(query@),
        r is None <==> !regex_compiles(query@) && !regex_compiles(escaped(query@)),
{
    match compile(query) {
        Some(p) => Some(p),
        None => {
            let literal = escape(query);
            compile(literal.as_str())
        },
    }
}

/// A matching line, its 1-based number, and the lines around it.
#[derive(Debug)]
pub struct MatchInfo {
    pub line_number: usize,
    pub line: String,
    pub context_before: Vec<String>,
    pub context_after: Vec<String>,
}

/// The indices, from `i` on, of the lines of `ls` that `pattern` matches.
pub open spec fn matching_lines(pattern: Seq<char>, ls: Seq<Seq<char>>, i: int) -> Seq<int>
    decreases ls.len() - i,
{
    if i < 0 || i >= ls.len() {
        seq![]
    } else if regex_matches(pattern, ls[i]) {
        seq![i] + matching_lines(pattern, ls, i + 1)
    } else {
        matching_lines(pattern, ls, i + 1)
    }
}

/// The first line of the context before line `i` (`i.saturating_sub(ctx)`).
pub open spec fn context_start(i: int, ctx: int) -> int {
    if i >= ctx {
        i - ctx
    } else {
        0
    }
}

/// The line after the context following line `i`.
pub open spec fn context_end(i: int, ctx: int, n: int) -> int {
    if i + ctx + 1 < n {
        i + ctx + 1
    } else {
        n
    }
}

/// `m` reports line `i` of `ls` with `ctx` lines of context on each side.
pub open spec fn reports_line(m: MatchInfo, ls: Seq<Seq<char>>, i: int, ctx: int) -> bool {
    &&& m.line_number == i + 1
    &&& m.line@ == ls[i]
    &&& m.context_before.deep_view() == ls.subrange(context_start(i, ctx), i)
    &&& m.context_after.deep_view() == ls.subrange(i + 1, context_end(i, ctx, ls.len() as int))
}

/// The search result of one note: the matches reported and whether more
/// matching lines were left out.
pub open spec fn search_outcome(
    pattern: Seq<char>,
    content: Seq<char>,
    ctx: int,
    max: int,
    found: Seq<MatchInfo>,
    truncated: bool,
) -> bool {
    let ls = lines(content);
    let all = matching_lines(pattern, ls, 0);
    &&& found.len() == if all.len() < max {
        all.len() as int
    } else {
        max
    }
    &&& forall|k: int| 0 <= k < found.len() ==> reports_line(#[trigger] found[k], ls, all[k], ctx)
    &&& truncated == (all.len() > max)
}

/// The indices of matching lines are lines that match, in increasing order.
pub proof fn lemma_matching_lines_bounds(pattern: Seq<char>, ls: Seq<Seq<char>>, i: int)
    requires
        0 <= i,
    ensures
        forall|k: int|
            0 <= k < matching_lines(pattern, ls, i).len() ==> i <= #[trigger] matching_lines(
                pattern,
                ls,
                i,
            )[k] < ls.len() && regex_matches(pattern, ls[matching_lines(pattern, ls, i)[k]]),
        forall|j: int, k: int|
            0 <= j < k < matching_lines(pattern, ls, i).len() ==> #[trigger] matching_lines(
                pattern,
                ls,
                i,
            )[j] < #[trigger] matching_lines(pattern, ls, i)[k],
    decreases ls.len() - i,
{
    if i < ls.len() {
        lemma_matching_lines_bounds(pattern, ls, i + 1);
        let rest = matching_lines(pattern, ls, i + 1);
        if regex_matches(pattern, ls[i]) {
            let all = matching_lines(pattern, ls, i);
            assert(all == seq![i] + rest);
            assert forall|k: int| 0 <= k < all.len() implies i <= #[trigger] all[k] < ls.len()
                && regex_matches(pattern, ls[all[k]]) by {
                if k > 0 {
                    assert(all[k] == rest[k - 1]);
                }
            }
            assert forall|j: int, k: int| 0 <= j < k < all.len() implies #[trigger] all[j]
                < #[trigger] all[k] by {
                assert(all[k] == rest[k - 1]);
                if j > 0 {
                    assert(all[j] == rest[j - 1]);
                }
            }
        } else {
            assert(matching_lines(pattern, ls, i) == rest);
        }
    }
}

fn copy_strings(v: &Vec<String>, lo: usize, hi: usize) -> (r: Vec<String>)
    requires
        lo <= hi <= v.len(),
    ensures
        r.deep_view() == v.deep_view().subrange(lo as int, hi as int),
{
    let mut r: Vec<String> = Vec::new();
    let mut i = lo;
    while i < hi
        invariant
            lo <= i <= hi <= v.len(),
            r.deep_view() == v.deep_view().subrange(lo as int, i as int),
        decreases hi - i,
    {
        let ghost before = r.deep_view();
        let item = v[i].clone();
        assert(item@ == v.deep_view()[i as int]);
        r.push(item);
        assert(r.deep_view() =~= before.push(item@));
        assert(r.deep_view() =~= v.deep_view().subrange(lo as int, i + 1));
        i = i + 1;
    }
    r
}

/// The lines of `content` as strings.
pub fn line_strings(content: &str) -> (r: Vec<String>)
    ensures
        r.deep_view() == lines(content@),
{
    let c = chars_of(content);
    let ls = split_lines(&c);
    let mut r: Vec<String> = Vec::new();
    let mut i: usize = 0;
    while i < ls.len()
        invariant
            i <= ls.len(),
            seq_views(ls@) == lines(content@),
            r.deep_view() == seq_views(ls@).subrange(0, i as int),
        decreases ls.len() - i,
    {
        let ghost before = r.deep_view();
        let item = string_of(&ls[i]);
        assert(item@ == seq_views(ls@)[i as int]);
        r.push(item);
        assert(r.deep_view() =~= before.push(item@));
        assert(r.deep_view() =~= seq_views(ls@).subrange(0, i + 1));
        i = i + 1;
    }
    assert(seq_views(ls@).subrange(0, i as int) =~= seq_views(ls@));
    r
}

/// The lines of a note that `pattern` matches, at most `max_matches` of
/// them, each with up to `context` lines before and after; and whether
/// more matching lines were left out.
pub fn search_note(pattern: &SearchPattern, content: &str, context: usize, max_matches: usize) -> (r:
    (Vec<MatchInfo>, bool))
    ensures
        search_outcome(pattern.source(), content@, context as int, max_matches as int, r.0@, r.1),
        forall|k: int| 0 <= k < r.0.len() ==> regex_matches(pattern.source(), #[trigger] r.0@[k].line@),
        forall|j: int, k: int| 0 <= j < k < r.0.len() ==> #[trigger] r.0@[j].line_number < #[trigger] r.0@[k].line_number,
{
    let ls = line_strings(content);
    let n = ls.len();
    let ghost src = pattern.source();
    let ghost all = matching_lines(src, ls.deep_view(), 0);
    let ghost mut idx: Seq<int> = seq![];
    let mut found: Vec<MatchInfo> = Vec::new();
    let mut truncated = false;
    let mut i: usize = 0;
    proof {
        lemma_matching_lines_bounds(src, ls.deep_view(), 0);
    }
    while i < n
        invariant_except_break
            !truncated,
        invariant
            n == ls.len(),
            ls.deep_view() == lines(content@),
            src == pattern.source(),
            all == matching_lines(src, ls.deep_view(), 0),
            i <= n,
            all == idx + matching_lines(src, ls.deep_view(), i as int),
            idx.len() == found.len(),
            found.len() <= max_matches,
            forall|k: int|
                0 <= k < found.len() ==> reports_line(
                    #[trigger] found@[k],
                    ls.deep_view(),
                    idx[k],
                    context as int,
                ),
        ensures
            truncated ==> i < n && regex_matches(src, ls.deep_view()[i as int]) && found.len()
                == max_matches,
            !truncated ==> i == n,
        decreases n - i,
    {
        if pattern.is_match(ls[i].as_str()) {
            if found.len() >= max_matches {
                truncated = true;
                break;
            }
            let start = if i >= context {
                i - context
            } else {
                0
            };
            let end = if context < n - i {
                i + context + 1
            } else {
                n
            };
            let info = MatchInfo {
                line_number: i + 1,
                line: ls[i].clone(),
                context_before: copy_strings(&ls, start, i),
                context_after: copy_strings(&ls, i + 1, end),
            };
            let ghost before = found@;
            found.push(info);
            proof {
                assert(matching_lines(src, ls.deep_view(), i as int) =~= seq![i as int]
                    + matching_lines(src, ls.deep_view(), i + 1));
                assert((idx.push(i as int)) + matching_lines(src, ls.deep_view(), i + 1) =~= idx
                    + matching_lines(src, ls.deep_view(), i as int));
                idx = idx.push(i as int);
                assert forall|k: int| 0 <= k < found.len() implies reports_line(
                    #[trigger] found@[k],
                    ls.deep_view(),
                    idx[k],
                    context as int,
                ) by {
                    if k < found.len() - 1 {
                        assert(found@[k] == before[k]);
                    }
                }
            }
        }
        i = i + 1;
    }
    proof {
        if truncated {
            assert(matching_lines(src, ls.deep_view(), i as int).len() > 0);
            assert(all.len() > max_matches);
            assert forall|k: int| 0 <= k < found.len() implies idx[k] == all[k] by {}
        } else {
            assert(matching_lines(src, ls.deep_view(), i as int) =~= seq![]);
            assert(idx + seq![] =~= idx);
        }
    }
    (found, truncated)
}

/// The matches found in one note.
#[derive(Debug)]
pub struct SearchFileResult {
    pub path: String,
    pub matches: Vec<MatchInfo>,
    /// True if more matches existed in this file but were not returned.
    pub truncated: bool,
}

/// A search over the notes of a vault, fed one note at a time: it keeps
/// the notes that match, up to `max_results` of them.
pub struct VaultSearch {
    pub pattern: SearchPattern,
    pub context: usize,
    pub max_results: usize,
    pub max_per_file: usize,
    pub results: Vec<SearchFileResult>,
}

pub open spec fn or_default(o: Option<usize>, d: usize) -> usize {
    match o {
        Some(v) => v,
        None => d,
    }
}

impl VaultSearch {
    /// A search for `query` (a regex, or literal text when it is not a valid
    /// one), with `context_lines` lines of context (default 1), at most
    /// `max_results` notes (default 20) and `max_matches_per_file` matches
    /// per note (default 10). None when the query compiles neither way.
    pub fn new(
        query: &str,
        context_lines: Option<usize>,
        max_results: Option<usize>,
        max_matches_per_file: Option<usize>,
    ) -> (r: Option<VaultSearch>)
        ensures
            r is None <==> !regex_compiles(query@) && !regex_compiles(escaped(query@)),
            r matches Some(s) ==> {
                &&& s.pattern.source() == query_source(query@)
                &&& s.context == or_default(context_lines, 1)
                &&& s.max_results == or_default(max_results, 20)
                &&& s.max_per_file == or_default(max_matches_per_file, 10)
                &&& s.results@.len() == 0
            },
    {
        match compile_query(query) {
            Some(pattern) => Some(
                VaultSearch {
                    pattern,
                    context: match context_lines {
                        Some(c) => c,
                        None => 1,
                    },
                    max_results: match max_results {
                        Some(m) => m,
                        None => 20,
                    },
                    max_per_file: match max_matches_per_file {
                        Some(m) => m,
                        None => 10,
                    },
                    results: Vec::new(),
                },
            ),
            None => None,
        }
    }

    /// Whether the search still takes notes: fewer than `max_results`
    /// matching notes were found so far.
    pub fn wants_more(&self) -> (b: bool)
        ensures
            b == (self.results.len() < self.max_results),
    {
        self.results.len() < self.max_results
    }

    /// Searches the note at `path` (relative to the vault) with text
    /// `content`, and keeps it when some line matches.
    pub fn add_note(&mut self, path: String, content: &str)
        requires
            old(self).results.len() < old(self).max_results,
        ensures
            final(self).pattern == old(self).pattern,
            final(self).context == old(self).context,
            final(self).max_results == old(self).max_results,
            final(self).max_per_file == old(self).max_per_file,
            final(self).results.len() <= final(self).max_results,
            ({
                let found = matching_lines(old(self).pattern.source(), lines(content@), 0);
                if found.len() == 0 || old(self).max_per_file == 0 {
                    final(self).results@ == old(self).results@
                } else {
                    &&& final(self).results@.len() == old(self).results@.len() + 1
                    &&& final(self).results@.drop_last() == old(self).results@
                    &&& final(self).results@.last().path == path
                    &&& 1 <= final(self).results@.last().matches@.len() <= old(self).max_per_file
                    &&& search_outcome(
                        old(self).pattern.source(),
                        content@,
                        old(self).context as int,
                        old(self).max_per_file as int,
                        final(self).results@.last().matches@,
                        final(self).results@.last().truncated,
                    )
                }
            }),
    {
        let (matches, truncated) = search_note(&self.pattern, content, self.context, self.max_per_file);
        if matches.len() > 0 {
            let ghost before = self.results@;
            self.results.push(SearchFileResult { path, matches, truncated });
            assert(self.results@.drop_last() =~= before);
        }
    }
}

} // verus!
