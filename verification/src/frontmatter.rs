//! Frontmatter values as the note logic reads them.
//!
//! A note's YAML frontmatter is decoded by `serde_yaml`, then turned into
//! JSON by `serde_json`; the decoded value is held as an `FmValue`, which
//! keeps the shape of the JSON value and, for each node, the compact JSON
//! text that `serde_json` prints for it.
use vstd::prelude::*;
use crate::text::{chars_of, strip_char, strip_end, strip_start};

verus! {

/// A JSON value decoded from a note's frontmatter.
///
/// `json` is the compact JSON text of the value (what `Value::to_string`
/// prints). In an object, keys are distinct and kept in the decoder's order.
#[derive(Debug)]
pub struct FmValue {
    pub kind: FmKind,
    pub json: String,
}

/// The kinds of JSON values. A number is known by its JSON text alone.
#[derive(Debug)]
pub enum FmKind {
    Null,
    Bool(bool),
    Number,
    Str(String),
    Array(Vec<FmValue>),
    Object(Vec<(String, FmValue)>),
}

#[verifier::external_type_specification]
#[verifier::external_body]
pub struct ExJsonValue(serde_json::Value);

/// The frontmatter value that the YAML text `yaml` decodes to: the
/// `serde_yaml::Value` that `serde_yaml::from_str` reads, turned into JSON
/// by `serde_json::to_value`; none when either step fails.
pub uninterp spec fn yaml_value(yaml: Seq<char>) -> Option<FmValue>;

/// Calls `serde_yaml::from_str` and then `serde_json::to_value`, as the
/// frontmatter decoding does; the result is named `yaml_value(yaml)`.
#[verifier::external_body]
pub(crate) fn decode_frontmatter(yaml: &str) -> (r: Option<FmValue>)
    ensures
        r == yaml_value(yaml@),
{
    let value: serde_yaml::Value = serde_yaml::from_str(yaml).ok()?;
    serde_json::to_value(value).ok().map(fm_of_json)
}

/// Turns a `serde_json::Value` into the library's model, node for node,
/// each node with its compact JSON text (`Value::to_string`).
#[verifier::external_body]
fn fm_of_json(v: serde_json::Value) -> FmValue {
    let json = v.to_string();
    let kind = match v {
        serde_json::Value::Null => FmKind::Null,
        serde_json::Value::Bool(b) => FmKind::Bool(b),
        serde_json::Value::Number(_) => FmKind::Number,
        serde_json::Value::String(s) => FmKind::Str(s),
        serde_json::Value::Array(a) => FmKind::Array(a.into_iter().map(fm_of_json).collect()),
        serde_json::Value::Object(m) => FmKind::Object(m.into_iter().map(|(k, x)| (k, fm_of_json(x))).collect()),
    };
    FmValue { kind, json }
}

/// The first entry of `es` from index `i` on whose key is `key`.
pub open spec fn entry_with_key(es: Seq<(String, FmValue)>, key: Seq<char>, i: int) -> Option<
    FmValue,
>
    decreases es.len() - i,
{
    if i < 0 || i >= es.len() {
        None
    } else if es[i].0@ == key {
        Some(es[i].1)
    } else {
        entry_with_key(es, key, i + 1)
    }
}

/// The value of field `key` of `v` (`Value::get`): none unless `v` is an
/// object holding that key.
pub open spec fn spec_get(v: FmValue, key: Seq<char>) -> Option<FmValue> {
    match v.kind {
        FmKind::Object(es) => entry_with_key(es@, key, 0),
        _ => None,
    }
}

/// The value of field `key` of `v`, if `v` is an object holding that key.
pub fn get<'a>(v: &'a FmValue, key: &str) -> (r: Option<&'a FmValue>)
    ensures
        match r {
            Some(f) => spec_get(*v, key@) == Some(*f),
            None => spec_get(*v, key@) is None,
        },
{
    match &v.kind {
        FmKind::Object(es) => {
            let mut i: usize = 0;
            while i < es.len()
                invariant
                    i <= es.len(),
                    v.kind == FmKind::Object(*es),
                    entry_with_key(es@, key@, i as int) == spec_get(*v, key@),
                decreases es.len() - i,
            {
                if string_eq_str(&es[i].0, key) {
                    return Some(&es[i].1);
                }
                i = i + 1;
            }
            None
        },
        _ => None,
    }
}

/// Whether a `String` and a `str` hold the same characters.
pub fn string_eq_str(a: &String, b: &str) -> (r: bool)
    ensures
        r == (a@ == b@),
{
    let x = chars_of(a.as_str());
    let y = chars_of(b);
    chars_eq(&x, &y)
}

/// Whether a field matches the expected text: it is that string, or its
/// JSON text with the surrounding double quotes removed is that text.
pub open spec fn spec_value_matches(field: FmValue, expected: Seq<char>) -> bool {
    ||| (field.kind matches FmKind::Str(s) && s@ == expected)
    ||| strip_end(strip_start(field.json@, '"'), '"') == expected
}

/// Whether a JSON value matches an expected string representation.
pub fn frontmatter_value_matches(field: &FmValue, expected: &str) -> (b: bool)
    ensures
        b == spec_value_matches(*field, expected@),
{
    let as_str = match &field.kind {
        FmKind::Str(s) => string_eq_str(s, expected),
        _ => false,
    };
    if as_str {
        return true;
    }
    let text = chars_of(field.json.as_str());
    let bare = strip_char(&text, '"');
    let want = chars_of(expected);
    let r = chars_eq(&bare, &want);
    r
}

/// Whether two character vectors are equal.
pub fn chars_eq(x: &Vec<char>, y: &Vec<char>) -> (r: bool)
    ensures
        r == (x@ == y@),
{
    if x.len() != y.len() {
        return false;
    }
    let mut i: usize = 0;
    while i < x.len()
        invariant
            x.len() == y.len(),
            i <= x.len(),
            forall|j: int| 0 <= j < i ==> x@[j] == y@[j],
        decreases x.len() - i,
    {
        if x[i] != y[i] {
            return false;
        }
        i = i + 1;
    }
    assert(x@ =~= y@);
    true
}

/// A string field whose JSON text is its text in quotes, with no quote
/// inside, matches exactly its own text: `"inactive"` does not match
/// `active`, nor any other text but `inactive`.
pub proof fn lemma_string_field_matches(field: FmValue, text: Seq<char>, expected: Seq<char>)
    requires
        field.kind matches FmKind::Str(x) && x@ == text,
        field.json@ == seq!['"'] + text + seq!['"'],
        forall|k: int| 0 <= k < text.len() ==> text[k] != '"',
    ensures
        spec_value_matches(field, expected) <==> text == expected,
{
    let j = field.json@;
    let q = seq!['"'];
    if text.len() == 0 {
        assert(j =~= seq!['"', '"']);
        assert(j.drop_first() =~= q);
        assert(q.drop_first() =~= Seq::<char>::empty());
        assert(strip_start(Seq::<char>::empty(), '"') == Seq::<char>::empty());
        assert(q[0] == '"' && j[0] == '"');
        assert(strip_start(q, '"') == strip_start(q.drop_first(), '"'));
        assert(strip_start(j, '"') == strip_start(j.drop_first(), '"'));
        assert(strip_start(j, '"') =~= Seq::<char>::empty());
        assert(strip_end(Seq::<char>::empty(), '"') == Seq::<char>::empty());
    } else {
        assert(j.drop_first() =~= text + q);
        assert((text + q)[0] == text[0]);
        assert(strip_start(text + q, '"') == text + q);
        assert((text + q).drop_last() =~= text);
        assert(text.last() == text[text.len() - 1]);
        assert(strip_end(text, '"') == text);
        assert(strip_end(text + q, '"') == strip_end(text, '"'));
    }
    assert(strip_end(strip_start(j, '"'), '"') == text);
}

/// A field that is not a string and whose JSON text holds no quote (a
/// number, a boolean, null) matches exactly its JSON text: `5` matches
/// `5` and nothing else.
pub proof fn lemma_plain_field_matches(field: FmValue, expected: Seq<char>)
    requires
        !(field.kind matches FmKind::Str(_)),
        forall|k: int| 0 <= k < field.json@.len() ==> field.json@[k] != '"',
    ensures
        spec_value_matches(field, expected) <==> field.json@ == expected,
{
    let j = field.json@;
    if j.len() > 0 {
        assert(j.last() == j[j.len() - 1]);
    }
    assert(strip_start(j, '"') == j);
    assert(strip_end(j, '"') == j);
}

} // verus!
