use notal::frontmatter::{FmKind, FmValue};
use notal::parser::{
    body_lines, extract_tags, extract_title, extract_wikilinks, frontmatter_tags, parse_frontmatter,
    parse_note, split_frontmatter,
};

/// Decodes frontmatter YAML through a note that holds it as its block.
fn decode(yaml: &str) -> Option<FmValue> {
    parse_frontmatter(&format!("---\n{yaml}---\n")).0
}

fn fm_str(s: &str) -> FmValue {
    FmValue { kind: FmKind::Str(s.to_string()), json: serde_json::Value::String(s.to_string()).to_string() }
}

#[test]
fn test_frontmatter_parsing() {
    let content = "---\ntitle: Test Note\nstatus: active\ntags:\n  - rust\n  - mcp\n---\n# Hello\nBody text.";
    let (fm, body) = parse_frontmatter(content);
    assert!(fm.is_some());
    assert!(body.contains("# Hello"));
    assert!(body.contains("Body text."));
}

#[test]
fn test_no_frontmatter() {
    let content = "# Just a heading\nSome text.";
    let (fm, body) = parse_frontmatter(content);
    assert!(fm.is_none());
    assert_eq!(body, content);
}

#[test]
fn test_wikilinks() {
    let content = "Link to [[Note A]] and [[Note B#section|alias here]].";
    let links = extract_wikilinks(content);
    assert_eq!(links.len(), 2);
    assert_eq!(links[0].target, "Note A");
    assert_eq!(links[1].target, "Note B");
    assert_eq!(links[1].heading.as_deref(), Some("section"));
    assert_eq!(links[1].alias.as_deref(), Some("alias here"));
}

#[test]
fn test_wikilinks_in_code_block_ignored() {
    let content = "Before\n```\n[[Not A Link]]\n```\n[[Real Link]]";
    let links = extract_wikilinks(content);
    assert_eq!(links.len(), 1);
    assert_eq!(links[0].target, "Real Link");
}

#[test]
fn test_tags() {
    let content = "Some text #rust and #tools/mcp here.\n#another";
    let tags = extract_tags(content);
    assert!(tags.contains(&"rust".to_string()));
    assert!(tags.contains(&"tools/mcp".to_string()));
    assert!(tags.contains(&"another".to_string()));
}

#[test]
fn test_tags_not_in_headings() {
    let content = "# Heading\nText #real-tag";
    let tags = extract_tags(content);
    assert!(!tags.iter().any(|t| t.contains("Heading")));
    assert!(tags.contains(&"real-tag".to_string()));
}

#[test]
fn test_title_extraction() {
    let content = "Some preamble\n# My Title\nBody text.";
    assert_eq!(extract_title(content).as_deref(), Some("My Title"));
}

#[test]
fn test_parse_note_full() {
    let content = "---\ntype: project\n---\n# Project X\nLink to [[Other Note]] with #tag1.";
    let note = parse_note(content);
    assert!(note.frontmatter.is_some());
    assert_eq!(note.title.as_deref(), Some("Project X"));
    assert_eq!(note.links.len(), 1);
    assert!(note.tags.contains(&"tag1".to_string()));
}

#[test]
fn wikilink_parts_and_trimming() {
    let links = extract_wikilinks("[[ A |b#c]] [[x# h ]] [[p#q|r]]");
    assert_eq!(links.len(), 3);
    assert_eq!(links[0].target, "A");
    assert_eq!(links[0].heading, None);
    assert_eq!(links[0].alias.as_deref(), Some("b#c"));
    assert_eq!(links[1].target, "x");
    assert_eq!(links[1].heading.as_deref(), Some("h"));
    assert_eq!(links[1].alias, None);
    assert_eq!(links[2].target, "p");
    assert_eq!(links[2].heading.as_deref(), Some("q"));
    assert_eq!(links[2].alias.as_deref(), Some("r"));
}

#[test]
fn wikilink_malformed_forms() {
    assert!(extract_wikilinks("[[a#]]").is_empty());
    assert!(extract_wikilinks("[[a|]]").is_empty());
    assert!(extract_wikilinks("[[a]b]]").is_empty());
    assert!(extract_wikilinks("[[]]").is_empty());
    assert!(extract_wikilinks("[[a\nb]]").is_empty());
    let nested = extract_wikilinks("[[[x]]");
    assert_eq!(nested.len(), 1);
    assert_eq!(nested[0].target, "[x");
    let outer = extract_wikilinks("[[a [[b]]");
    assert_eq!(outer.len(), 1);
    assert_eq!(outer[0].target, "a [[b");
}

#[test]
fn wikilinks_after_code_block_closes_and_crlf() {
    let content = "```rust\n[[In]]\n```\r\n[[Out]]\r\n````\n[[Hidden]]";
    let links = extract_wikilinks(content);
    assert_eq!(links.len(), 1);
    assert_eq!(links[0].target, "Out");
}

#[test]
fn tags_deduplicated_in_first_order() {
    let tags = extract_tags("#b then #a and #b again (#c) x#d #1e #f.g");
    assert_eq!(tags, vec!["b".to_string(), "a".to_string(), "c".to_string(), "f".to_string()]);
}

#[test]
fn tags_word_characters_and_code_blocks() {
    let tags = extract_tags("#café_1-x/y\n```\n#hidden\n```\n\t#Tab,#no");
    assert_eq!(tags, vec!["café_1-x/y".to_string(), "Tab".to_string()]);
}

#[test]
fn tags_stop_at_separators() {
    let tags = extract_tags("x #a.b #c#d (#e\u{a0}f #g h");
    assert_eq!(tags, vec!["a".to_string(), "c".to_string(), "e".to_string(), "g".to_string()]);
    for t in &tags {
        assert!(!t.contains('#') && !t.contains('.') && !t.chars().any(char::is_whitespace));
    }
}

fn link_parts(content: &str) -> Vec<(String, Option<String>, Option<String>)> {
    extract_wikilinks(content).into_iter().map(|l| (l.target, l.heading, l.alias)).collect()
}

#[test]
fn wikilinks_of_joined_notes() {
    let a = "x [[A]]\n```\ny [[In]]\n```\nz [[B#h]]\r";
    let b = "[[C]] and [[D|d]]";
    let mut both = link_parts(a);
    both.extend(link_parts(b));
    assert_eq!(link_parts(&format!("{a}\n{b}")), both);
    let targets: Vec<String> = both.iter().map(|l| l.0.clone()).collect();
    assert_eq!(targets, vec!["A", "B", "C", "D"]);
    let c = "[[Hidden]]\nplain";
    assert_eq!(link_parts(&format!("{a}\n```\n{c}\n```\n{b}")), link_parts(&format!("{a}\n{b}")));
}

#[test]
fn first_heading_line_is_the_title() {
    assert_eq!(extract_title("#  Heading x \r\n# Other").as_deref(), Some("Heading x"));
    assert_eq!(extract_title("# Only").as_deref(), Some("Only"));
}

#[test]
fn title_edge_cases() {
    assert_eq!(extract_title("#\n\nfoo\n").as_deref(), Some("foo"));
    assert_eq!(extract_title("#  ").as_deref(), Some(""));
    assert_eq!(extract_title("# "), None);
    assert_eq!(extract_title("#title\n"), None);
    assert_eq!(extract_title("x # no\n# A b  \r\nrest").as_deref(), Some("A b"));
    assert_eq!(extract_title("```\n# In Code\n```").as_deref(), Some("In Code"));
    assert_eq!(extract_title(""), None);
}

#[test]
fn frontmatter_line_endings() {
    let (yaml, body) = split_frontmatter("---\r\nk: v\r\n---\r\nbody");
    assert_eq!(yaml.as_deref(), Some("k: v\r\n"));
    assert_eq!(body, "body");
    let (yaml, body) = split_frontmatter("---\na: 1\n---");
    assert_eq!(yaml.as_deref(), Some("a: 1\n"));
    assert_eq!(body, "");
    let (yaml, body) = split_frontmatter("---\nabc");
    assert_eq!(yaml, None);
    assert_eq!(body, "---\nabc");
    let (yaml, body) = split_frontmatter("--- \nabc\n---\nx");
    assert_eq!(yaml, None);
    assert_eq!(body, "--- \nabc\n---\nx");
}

#[test]
fn frontmatter_invalid_yaml_keeps_body() {
    let content = "---\na: [b\n---\nBody";
    let (yaml, body) = split_frontmatter(content);
    assert!(yaml.is_some());
    assert_eq!(body, "Body");
    let (fm, body) = parse_frontmatter(content);
    assert!(fm.is_none());
    assert_eq!(body, "Body");
}

#[test]
fn frontmatter_tags_forms() {
    let fm = decode("tags: \" a, b,,c \"\n").unwrap();
    assert_eq!(frontmatter_tags(&fm), vec!["a".to_string(), "b".to_string(), "c".to_string()]);
    let fm = decode("tags:\n  - x\n  - 1\n  - y\n").unwrap();
    assert_eq!(frontmatter_tags(&fm), vec!["x".to_string(), "y".to_string()]);
    let fm = decode("title: none\n").unwrap();
    assert!(frontmatter_tags(&fm).is_empty());
    assert!(frontmatter_tags(&fm_str("tags")).is_empty());
}

#[test]
fn parse_note_reads_body_only() {
    let content = "---\ntags: [x]\n---\nText #inbody [[L]]";
    let note = parse_note(content);
    assert_eq!(note.body, "Text #inbody [[L]]");
    assert_eq!(note.tags, vec!["inbody".to_string()]);
    assert_eq!(note.links[0].target, "L");
    assert_eq!(note.title, None);
    let fm = note.frontmatter.unwrap();
    assert_eq!(frontmatter_tags(&fm), vec!["x".to_string()]);
    assert_eq!(fm.json, "{\"tags\":[\"x\"]}");
}

#[test]
fn body_lines_skip_fenced_blocks() {
    let lines = body_lines("a\r\n```\nb\n```\nc\n");
    assert_eq!(lines, vec!["a".to_string(), "c".to_string()]);
    assert!(body_lines("").is_empty());
    assert_eq!(body_lines("x\r"), vec!["x\r".to_string()]);
    assert_eq!(body_lines("\n\n"), vec!["".to_string(), "".to_string()]);
}
