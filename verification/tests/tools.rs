use notal::frontmatter::{frontmatter_value_matches, get, FmKind, FmValue};
use notal::parser::parse_note_with;
use notal::tools::{
    body_view, decimal_string, is_backlink, link_name, links_back, list_filter, list_notes, query_matches,
    sort_entries, ListFilter, NoteEntry, NoteSource,
};

fn fv(kind: FmKind, json: &str) -> FmValue {
    FmValue { kind, json: json.to_string() }
}

fn object(fields: Vec<(&str, FmValue)>, json: &str) -> FmValue {
    fv(FmKind::Object(fields.into_iter().map(|(k, v)| (k.to_string(), v)).collect()), json)
}

#[test]
fn body_view_truncates_lines() {
    let body = "a\nb\nc".to_string();
    assert_eq!(body_view(body.clone(), Some(2), None), "a\nb\n\n... (1 more lines)");
    assert_eq!(body_view(body.clone(), Some(3), None), "a\nb\nc");
    assert_eq!(body_view(body.clone(), None, Some(false)), "a\nb\nc");
    assert_eq!(body_view(body.clone(), Some(1), Some(true)), "");
    assert_eq!(body_view(body.clone(), Some(0), None), "\n\n... (3 more lines)");
    assert_eq!(body_view("x\r\ny\n".to_string(), Some(1), None), "x\n\n... (1 more lines)");
}

#[test]
fn decimal_strings() {
    assert_eq!(decimal_string(0), "0");
    assert_eq!(decimal_string(7), "7");
    assert_eq!(decimal_string(1234), "1234");
    assert_eq!(decimal_string(usize::MAX), usize::MAX.to_string());
}

#[test]
fn list_filter_parsing() {
    let f = list_filter(None, Some("status=active=x".to_string()));
    assert_eq!(f.frontmatter, Some(("status".to_string(), "active=x".to_string())));
    assert!(f.is_active());
    let g = list_filter(None, Some("nokey".to_string()));
    assert_eq!(g.frontmatter, None);
    assert!(!g.is_active());
    let h = list_filter(Some("rust".to_string()), None);
    assert!(h.is_active());
}

fn note(body: &str, fm: Option<FmValue>) -> notal::parser::ParsedNote {
    parse_note_with(body, fm)
}

#[test]
fn list_notes_unfiltered_sorted_by_path() {
    let f = ListFilter { tag: None, frontmatter: None };
    let srcs = vec![
        NoteSource { path: "/v/b.md".to_string(), note: None },
        NoteSource { path: "/v/a/z.md".to_string(), note: None },
        NoteSource { path: "/v/B.md".to_string(), note: None },
    ];
    let entries = list_notes("/v", &f, srcs);
    let paths: Vec<&str> = entries.iter().map(|e| e.path.as_str()).collect();
    assert_eq!(paths, vec!["B.md", "a/z.md", "b.md"]);
    assert_eq!(entries[1].title.as_deref(), Some("z"));
    assert!(entries[0].tags.is_empty());
}

#[test]
fn list_notes_filters_by_tag_and_frontmatter() {
    let status = object(
        vec![
            ("status", fv(FmKind::Str("active".to_string()), "\"active\"")),
            ("tags", fv(FmKind::Array(vec![fv(FmKind::Str("fmtag".to_string()), "\"fmtag\"")]), "[\"fmtag\"]")),
        ],
        "{\"status\":\"active\",\"tags\":[\"fmtag\"]}",
    );
    let tag_filter = list_filter(Some("fmtag".to_string()), None);
    let srcs = vec![
        NoteSource { path: "/v/one.md".to_string(), note: Some(note("# One\n#inline", Some(status))) },
        NoteSource { path: "/v/two.md".to_string(), note: Some(note("#fmtag text", None)) },
        NoteSource { path: "/v/three.md".to_string(), note: Some(note("plain", None)) },
        NoteSource { path: "/v/four.md".to_string(), note: None },
    ];
    let entries = list_notes("/v", &tag_filter, srcs);
    assert_eq!(entries.len(), 2);
    assert_eq!(entries[0].path, "one.md");
    assert_eq!(entries[0].title.as_deref(), Some("One"));
    assert_eq!(entries[0].tags, vec!["inline".to_string()]);
    assert_eq!(entries[1].path, "two.md");
    assert_eq!(entries[1].title.as_deref(), Some("two"));

    let num = object(vec![("n", fv(FmKind::Number, "5"))], "{\"n\":5}");
    let fm_filter = list_filter(None, Some("n=5".to_string()));
    let srcs = vec![
        NoteSource { path: "/v/x.md".to_string(), note: Some(note("x", Some(num))) },
        NoteSource { path: "/v/y.md".to_string(), note: Some(note("y", None)) },
    ];
    let entries = list_notes("/v", &fm_filter, srcs);
    assert_eq!(entries.len(), 1);
    assert_eq!(entries[0].path, "x.md");
}

#[test]
fn sort_is_stable() {
    let e = |p: &str, t: &str| NoteEntry { path: p.to_string(), title: Some(t.to_string()), tags: vec![] };
    let sorted = sort_entries(vec![e("b", "1"), e("a", "2"), e("b", "3"), e("a", "4")]);
    let got: Vec<(&str, &str)> =
        sorted.iter().map(|x| (x.path.as_str(), x.title.as_deref().unwrap())).collect();
    assert_eq!(got, vec![("a", "2"), ("a", "4"), ("b", "1"), ("b", "3")]);
}

#[test]
fn value_matching() {
    let s = fv(FmKind::Str("active".to_string()), "\"active\"");
    assert!(frontmatter_value_matches(&s, "active"));
    assert!(!frontmatter_value_matches(&s, "\"active\""));
    let b = fv(FmKind::Bool(true), "true");
    assert!(frontmatter_value_matches(&b, "true"));
    let q = fv(FmKind::Str("say \"hi\"".to_string()), "\"say \\\"hi\\\"\"");
    assert!(frontmatter_value_matches(&q, "say \"hi\""));
    assert!(frontmatter_value_matches(&q, "say \\\"hi\\"));
    let arr = fv(FmKind::Array(vec![fv(FmKind::Number, "1")]), "[1]");
    assert!(frontmatter_value_matches(&arr, "[1]"));
}

#[test]
fn frontmatter_query() {
    let fm = object(vec![("status", fv(FmKind::Str("draft".to_string()), "\"draft\""))], "{\"status\":\"draft\"}");
    assert!(get(&fm, "status").is_some());
    assert!(get(&fm, "other").is_none());
    let some = Some(fm);
    assert!(query_matches(&some, "status", None));
    assert!(query_matches(&some, "status", Some("draft")));
    assert!(!query_matches(&some, "status", Some("done")));
    assert!(!query_matches(&some, "missing", None));
    assert!(!query_matches(&None, "status", None));
}

#[test]
fn backlinks() {
    assert_eq!(link_name("/v/dir/My Note.md"), "My Note");
    assert_eq!(link_name("/"), "");
    assert!(links_back("see [[My Note#h|x]]", "My Note"));
    assert!(!links_back("see [[My Note2]]", "My Note"));
    assert!(!links_back("```\n[[My Note]]\n```", "My Note"));
}

#[test]
fn backlink_excludes_the_note_itself() {
    assert!(is_backlink("/v/A.md", "A", "/v/B.md", "to [[A]]"));
    assert!(!is_backlink("/v/A.md", "A", "/v/A.md", "to [[A]]"));
    assert!(!is_backlink("/v/A.md", "A", "/v//A.md", "to [[A]]"));
    assert!(!is_backlink("/v/A.md", "A", "/v/B.md", "to [[B]]"));
}
