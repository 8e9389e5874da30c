//! Vault paths: resolving a note name to a file inside the vault root,
//! and naming a file relative to the root.
//!
//! Paths are handled as strings; the path operations themselves are those
//! of `std::path`, whose results are named here and not restated.
use vstd::prelude::*;
use vstd::string::StringExecFns;
use crate::text::{chars_of, find_exec, find_from, occurs_at_exec, opt_view, string_of};

verus! {

#[verifier::external_type_specification]
#[verifier::external_body]
pub struct ExIoError(std::io::Error);

/// Why a vault operation failed.
#[derive(Debug)]
pub enum VaultError {
    PathTraversal(String),
    NotFound(String),
    AlreadyExists(String),
    Io(std::io::Error),
}

/// Calls `std::io::Error`'s `Display` (`to_string`): the error's text,
/// of which nothing is stated.
#[verifier::external_body]
fn io_error_text(e: &std::io::Error) -> String {
    e.to_string()
}

impl VaultError {
    /// The error as text.
    pub fn message(&self) -> (m: String)
        ensures
            match self {
                VaultError::PathTraversal(p) => m@ == "path traversal rejected: "@ + p@,
                VaultError::NotFound(p) => m@ == "not found: "@ + p@,
                VaultError::AlreadyExists(p) => m@ == "already exists: "@ + p@,
                VaultError::Io(_) => "I/O error: "@.is_prefix_of(m@),
            },
    {
        let (head, tail) = match self {
            VaultError::PathTraversal(p) => ("path traversal rejected: ", p.as_str()),
            VaultError::NotFound(p) => ("not found: ", p.as_str()),
            VaultError::AlreadyExists(p) => ("already exists: ", p.as_str()),
            VaultError::Io(e) => {
                let mut m = "I/O error: ".to_owned();
                let text = io_error_text(e);
                m.append(text.as_str());
                return m;
            },
        };
        let mut m = head.to_owned();
        m.append(tail);
        m
    }
}

impl From<std::io::Error> for VaultError {
    fn from(e: std::io::Error) -> (r: Self)
        ensures
            r == VaultError::Io(e),
    {
        VaultError::Io(e)
    }
}

impl vstd::std_specs::convert::FromSpecImpl<std::io::Error> for VaultError {
    open spec fn obeys_from_spec() -> bool {
        true
    }

    open spec fn from_spec(e: std::io::Error) -> VaultError {
        VaultError::Io(e)
    }
}

/// The extension of path `p` (`Path::extension`).
pub uninterp spec fn path_extension(p: Seq<char>) -> Option<Seq<char>>;

/// The file name of path `p` (`Path::file_name`): none when `p` ends in
/// `..` or has no name, such as the empty path or `/`.
pub uninterp spec fn path_file_name(p: Seq<char>) -> Option<Seq<char>>;

/// Path `p` with its file name replaced by `name` (`Path::with_file_name`).
pub uninterp spec fn path_with_file_name(p: Seq<char>, name: Seq<char>) -> Seq<char>;

/// Path `rel` joined onto `base` (`Path::join`).
pub uninterp spec fn path_join(base: Seq<char>, rel: Seq<char>) -> Seq<char>;

/// Whether `base` is a prefix of path `p`, component by component
/// (`Path::starts_with`).
pub uninterp spec fn path_starts_with(p: Seq<char>, base: Seq<char>) -> bool;

/// Path `p` with the prefix `base` removed, if `base` is one (`Path::strip_prefix`).
pub uninterp spec fn path_strip_prefix(p: Seq<char>, base: Seq<char>) -> Option<Seq<char>>;

/// The file name of `p` without its extension (`Path::file_stem`).
pub uninterp spec fn path_file_stem(p: Seq<char>) -> Option<Seq<char>>;

/// Whether paths `a` and `b` are equal component by component (`Path`'s `==`).
pub uninterp spec fn path_same(a: Seq<char>, b: Seq<char>) -> bool;

/// Calls `Path`'s `PartialEq::eq`; the answer is named `path_same(a, b)`.
#[verifier::external_body]
pub(crate) fn same_path(a: &str, b: &str) -> (r: bool)
    ensures
        r == path_same(a@, b@),
{
    std::path::Path::new(a) == std::path::Path::new(b)
}

/// Calls `Path::file_name`; the result, as text, is named `path_file_name(p)`.
#[verifier::external_body]
fn file_name_of(p: &str) -> (r: Option<String>)
    ensures
        opt_view(r) == path_file_name(p@),
{
    match std::path::Path::new(p).file_name() {
        Some(n) => Some(n.to_string_lossy().into_owned()),
        None => None,
    }
}

/// Calls `Path::with_file_name`; the resulting path, as text, is named
/// `path_with_file_name(p, name)`.
#[verifier::external_body]
fn with_file_name(p: &str, name: &str) -> (r: String)
    ensures
        r@ == path_with_file_name(p@, name@),
{
    std::path::Path::new(p).with_file_name(name).to_string_lossy().into_owned()
}

/// Calls `Path::extension`; the result, as text, is named `path_extension(p)`.
#[verifier::external_body]
fn extension_of(p: &str) -> (r: Option<String>)
    ensures
        opt_view(r) == path_extension(p@),
{
    match std::path::Path::new(p).extension() {
        Some(e) => Some(e.to_string_lossy().into_owned()),
        None => None,
    }
}

/// Calls `Path::join`; the joined path, as text, is named `path_join(base, rel)`.
#[verifier::external_body]
fn join(base: &str, rel: &str) -> (r: String)
    ensures
        r@ == path_join(base@, rel@),
{
    std::path::Path::new(base).join(rel).to_string_lossy().into_owned()
}

/// Calls `Path::starts_with`; the answer is named `path_starts_with(p, base)`.
#[verifier::external_body]
fn starts_with_path(p: &str, base: &str) -> (b: bool)
    ensures
        b == path_starts_with(p@, base@),
{
    std::path::Path::new(p).starts_with(base)
}

/// Calls `Path::strip_prefix`; the remainder, as text, is named
/// `path_strip_prefix(p, base)` (none when `base` is not a prefix).
#[verifier::external_body]
fn strip_prefix(p: &str, base: &str) -> (r: Option<String>)
    ensures
        opt_view(r) == path_strip_prefix(p@, base@),
{
    match std::path::Path::new(p).strip_prefix(base) {
        Ok(rest) => Some(rest.to_string_lossy().into_owned()),
        Err(_) => None,
    }
}

/// Calls `Path::file_stem`; the stem, as text, is named `path_file_stem(p)`.
#[verifier::external_body]
pub(crate) fn file_stem(p: &str) -> (r: Option<String>)
    ensures
        opt_view(r) == path_file_stem(p@),
{
    match std::path::Path::new(p).file_stem() {
        Some(s) => Some(s.to_string_lossy().into_owned()),
        None => None,
    }
}

/// Whether `s` contains `..` anywhere.
pub open spec fn has_dot_dot(s: Seq<char>) -> bool {
    find_from(s, seq!['.', '.'], 0) is Some
}

/// A note name with the `.md` extension: kept as it is when its extension
/// is `md`, else with `.md` appended to its file name (`dir/` becomes
/// `dir.md`); a name with no file name, such as the empty one, is kept.
pub open spec fn md_path(rel: Seq<char>) -> Seq<char> {
    if path_extension(rel) == Some(seq!['m', 'd']) {
        rel
    } else {
        match path_file_name(rel) {
            Some(name) => path_with_file_name(rel, name + seq!['.', 'm', 'd']),
            None => rel,
        }
    }
}

/// The path that note name `relative` stands for under `vault_root`,
/// before the file system is consulted: names holding `..` are refused,
/// `.md` is appended when the name lacks that extension, and the name is
/// joined onto the root. `finish_resolve` then confines the result to the
/// vault.
pub fn resolve_path(vault_root: &str, relative: &str) -> (r: Result<String, VaultError>)
    ensures
        match r {
            Ok(full) => !has_dot_dot(relative@) && full@ == path_join(
                vault_root@,
                md_path(relative@),
            ),
            Err(e) => has_dot_dot(relative@) && (e matches VaultError::PathTraversal(p) && p@
                == relative@),
        },
{
    let rel = chars_of(relative);
    let dots = vec!['.', '.'];
    assert(dots@ =~= seq!['.', '.']);
    if find_exec(&rel, &dots, 0).is_some() {
        return Err(VaultError::PathTraversal(string_of(&rel)));
    }
    let md = vec!['m', 'd'];
    assert(md@ =~= seq!['m', 'd']);
    let named = match extension_of(relative) {
        Some(ext) => {
            let e = chars_of(ext.as_str());
            if e.len() == 2 {
                assert(e@.subrange(0, 2) =~= e@);
                occurs_at_exec(&e, &md, 0)
            } else {
                false
            }
        },
        None => false,
    };
    let with_md = if named {
        string_of(&rel)
    } else {
        match file_name_of(relative) {
            Some(name) => {
                let mut md_name = name;
                md_name.append(".md");
                with_file_name(relative, md_name.as_str())
            },
            None => string_of(&rel),
        }
    };
    proof {
        reveal_strlit(".md");
        assert(".md"@ =~= seq!['.', 'm', 'd']);
        if named {
            assert(path_extension(relative@) == Some(seq!['m', 'd']));
        } else {
            assert(path_extension(relative@) != Some(seq!['m', 'd']));
        }
    }
    Ok(join(vault_root, with_md.as_str()))
}

/// What the file system says of a resolved note path.
#[derive(Debug)]
pub enum OnDisk {
    /// A file is there; this is its canonical path.
    Exists(String),
    /// No file is there. `ancestor` is the nearest ancestor of the path that
    /// exists, and `canonical_ancestor` its canonical form.
    Missing { ancestor: String, canonical_ancestor: String },
}

/// The path `full` with its existing part `ancestor` replaced by the
/// canonical form of that part: where `full` really leads once the links
/// on the way are followed. None when `ancestor` is not an ancestor of `full`.
pub open spec fn anchored(full: Seq<char>, ancestor: Seq<char>, canonical_ancestor: Seq<char>) -> Option<
    Seq<char>,
> {
    match path_strip_prefix(full, ancestor) {
        Some(rest) => Some(path_join(canonical_ancestor, rest)),
        None => None,
    }
}

/// The path a resolution keeps, when it stays inside `root`: the canonical
/// path of an existing file; for a new file, `full` itself, provided both
/// `full` and the place it really leads to lie under `root`.
pub open spec fn confined(root: Seq<char>, full: Seq<char>, on_disk: OnDisk) -> Option<Seq<char>> {
    match on_disk {
        OnDisk::Exists(c) => if path_starts_with(c@, root) {
            Some(c@)
        } else {
            None
        },
        OnDisk::Missing { ancestor, canonical_ancestor } => {
            let leads_to = anchored(full, ancestor@, canonical_ancestor@);
            if path_starts_with(full, root) && (leads_to matches Some(a) && path_starts_with(a, root)) {
                Some(full)
            } else {
                None
            }
        },
    }
}

/// Confines a resolved note path `full` to the vault, given what the file
/// system says of it. An existing file is kept by its canonical path; a new
/// one by `full`, once the place it really leads to (its existing ancestor
/// taken canonically) is checked too. A path outside `vault_root` refuses
/// `relative` as a traversal.
pub fn finish_resolve(vault_root: &str, relative: &str, full: String, on_disk: OnDisk) -> (r: Result<
    String,
    VaultError,
>)
    ensures
        match r {
            Ok(p) => confined(vault_root@, full@, on_disk) == Some(p@),
            Err(e) => confined(vault_root@, full@, on_disk) is None && (e matches VaultError::PathTraversal(
                q,
            ) && q@ == relative@),
        },
{
    let kept = match on_disk {
        OnDisk::Exists(c) => {
            if starts_with_path(c.as_str(), vault_root) {
                Some(c)
            } else {
                None
            }
        },
        OnDisk::Missing { ancestor, canonical_ancestor } => {
            if starts_with_path(full.as_str(), vault_root) {
                match strip_prefix(full.as_str(), ancestor.as_str()) {
                    Some(rest) => {
                        let target = join(canonical_ancestor.as_str(), rest.as_str());
                        if starts_with_path(target.as_str(), vault_root) {
                            Some(full)
                        } else {
                            None
                        }
                    },
                    None => None,
                }
            } else {
                None
            }
        },
    };
    match kept {
        Some(p) => Ok(p),
        None => {
            let rel = chars_of(relative);
            Err(VaultError::PathTraversal(string_of(&rel)))
        },
    }
}

/// A note's path relative to the vault root (the full path itself when it
/// does not lie under the root).
pub fn relative_path(vault_root: &str, full_path: &str) -> (r: String)
    ensures
        r@ == match path_strip_prefix(full_path@, vault_root@) {
            Some(rest) => rest,
            None => full_path@,
        },
{
    match strip_prefix(full_path, vault_root) {
        Some(rest) => rest,
        None => {
            let c = chars_of(full_path);
            string_of(&c)
        },
    }
}

/// `path` with a leading `~/` replaced by the home directory, when one is known.
pub open spec fn spec_shellexpand(path: Seq<char>, home: Option<Seq<char>>) -> Seq<char> {
    match home {
        Some(h) => if crate::text::starts_with(path, seq!['~', '/']) {
            h + seq!['/'] + path.subrange(2, path.len() as int)
        } else {
            path
        },
        None => path,
    }
}

/// Simple tilde expansion: `~/rest` becomes `home/rest`.
pub fn shellexpand(path: &str, home: Option<&str>) -> (r: String)
    ensures
        r@ == spec_shellexpand(
            path@,
            match home {
                Some(h) => Some(h@),
                None => None,
            },
        ),
{
    let p = chars_of(path);
    let tilde = vec!['~', '/'];
    assert(tilde@ =~= seq!['~', '/']);
    match home {
        Some(h) => {
            if occurs_at_exec(&p, &tilde, 0) {
                let mut r = h.to_owned();
                r.append("/");
                let rest = crate::text::copy_range(&p, 2, p.len());
                let rest_s = string_of(&rest);
                r.append(rest_s.as_str());
                proof {
                    reveal_strlit("/");
                    assert("/"@ =~= seq!['/']);
                }
                r
            } else {
                string_of(&p)
            }
        },
        None => string_of(&p),
    }
}

/// Whether a note may be written at `path`: not when a file is already
/// there and overwriting was not asked for.
pub fn check_write(path: &str, exists: bool, overwrite: bool) -> (r: Result<(), VaultError>)
    ensures
        r is Err <==> exists && !overwrite,
        r matches Err(e) ==> (e matches VaultError::AlreadyExists(p) && p@ == path@),
{
    if exists && !overwrite {
        let c = chars_of(path);
        Err(VaultError::AlreadyExists(string_of(&c)))
    } else {
        Ok(())
    }
}

/// The error for a note that could not be read: `NotFound` with the path
/// when no file was there, else the I/O error itself.
pub fn read_failure(path: &str, not_found: bool, e: std::io::Error) -> (r: VaultError)
    ensures
        not_found ==> (r matches VaultError::NotFound(p) && p@ == path@),
        !not_found ==> r == VaultError::Io(e),
{
    if not_found {
        let c = chars_of(path);
        VaultError::NotFound(string_of(&c))
    } else {
        VaultError::Io(e)
    }
}

} // verus!
