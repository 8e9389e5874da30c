use notal::search::{search_note, compile_query, VaultSearch};

#[test]
fn search_reports_lines_with_context() {
    let p = compile_query("fo+").unwrap();
    let (found, truncated) = search_note(&p, "a\nfoo\nb\nfoo", 1, 10);
    assert!(!truncated);
    assert_eq!(found.len(), 2);
    assert_eq!(found[0].line_number, 2);
    assert_eq!(found[0].line, "foo");
    assert_eq!(found[0].context_before, vec!["a".to_string()]);
    assert_eq!(found[0].context_after, vec!["b".to_string()]);
    assert_eq!(found[1].line_number, 4);
    assert_eq!(found[1].context_before, vec!["b".to_string()]);
    assert!(found[1].context_after.is_empty());
}

#[test]
fn search_context_clipped_at_edges() {
    let p = compile_query("x").unwrap();
    let (found, _) = search_note(&p, "x\n1\n2\n3\nx", 3, 10);
    assert_eq!(found.len(), 2);
    assert!(found[0].context_before.is_empty());
    assert_eq!(found[0].context_after, vec!["1".to_string(), "2".to_string(), "3".to_string()]);
    assert_eq!(found[1].context_before, vec!["1".to_string(), "2".to_string(), "3".to_string()]);
    let (found, _) = search_note(&p, "a\nx\nb", 0, 10);
    assert!(found[0].context_before.is_empty() && found[0].context_after.is_empty());
}

#[test]
fn search_truncation_means_more_matches() {
    let p = compile_query("m").unwrap();
    let (found, truncated) = search_note(&p, "m1\nm2\nzz", 1, 1);
    assert_eq!(found.len(), 1);
    assert!(truncated);
    let (found, truncated) = search_note(&p, "m1\nzz\nzz", 1, 1);
    assert_eq!(found.len(), 1);
    assert!(!truncated);
    let (found, truncated) = search_note(&p, "m1", 1, 0);
    assert!(found.is_empty());
    assert!(truncated);
}

#[test]
fn invalid_regex_searched_literally() {
    let p = compile_query("a(b").unwrap();
    let (found, _) = search_note(&p, "xa(by\nab\n", 0, 10);
    assert_eq!(found.len(), 1);
    assert_eq!(found[0].line, "xa(by");
    let q = compile_query("a.c").unwrap();
    let (found, _) = search_note(&q, "abc\na.c", 0, 10);
    assert_eq!(found.len(), 2);
}

#[test]
fn vault_search_limits_and_defaults() {
    let mut s = VaultSearch::new("hit", None, Some(2), None).unwrap();
    assert_eq!(s.context, 1);
    assert_eq!(s.max_per_file, 10);
    assert_eq!(s.max_results, 2);
    assert!(s.wants_more());
    s.add_note("a.md".to_string(), "no match here");
    assert!(s.results.is_empty());
    s.add_note("b.md".to_string(), "a hit");
    s.add_note("c.md".to_string(), "hit\nhit");
    assert!(!s.wants_more());
    assert_eq!(s.results.len(), 2);
    assert_eq!(s.results[0].path, "b.md");
    assert_eq!(s.results[1].matches.len(), 2);
    assert!(!s.results[1].truncated);
    let d = VaultSearch::new("x", None, None, None).unwrap();
    assert_eq!(d.max_results, 20);
}

#[test]
fn search_huge_context_is_clipped() {
    let p = compile_query("x").unwrap();
    let (found, _) = search_note(&p, "a\nx\nb", usize::MAX, 10);
    assert_eq!(found[0].context_before, vec!["a".to_string()]);
    assert_eq!(found[0].context_after, vec!["b".to_string()]);
}
