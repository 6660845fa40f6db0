use serviceowners::mapper::{highest, parse_line, LineEntry, ParseError, ServiceMapper};

fn mapper(doc: &str) -> ServiceMapper {
    match ServiceMapper::parse(doc) {
        Ok(m) => m,
        Err(e) => panic!("document should parse: {:?}", e),
    }
}

fn explained(m: &ServiceMapper, path: &str) -> Vec<(String, String)> {
    m.explain_service(path).into_iter().map(|e| (e.pattern, e.service.to_string())).collect()
}

#[test]
fn end_to_end_scenario() {
    let m = mapper("src/** team-a\ndocs/** team-b\nsrc/legacy/** team-c\n");
    assert_eq!(m.find_service("src/x.go"), Some("team-a"));
    assert_eq!(m.find_service("src/legacy/old.go"), Some("team-c"));
    assert_eq!(m.find_service("README.md"), None);
    assert_eq!(m.find_service("docs/guide/intro.md"), Some("team-b"));
}

#[test]
fn last_match_wins() {
    let m = mapper("**/*.go A\ncmd/** B\n");
    assert_eq!(m.find_service("cmd/main.go"), Some("B"));
    assert_eq!(m.find_service("pkg/x.go"), Some("A"));
}

#[test]
fn position_beats_specificity() {
    let m = mapper("src/legacy/** narrow\nsrc/** broad\n");
    assert_eq!(m.find_service("src/legacy/old.go"), Some("broad"));
}

#[test]
fn bare_name_matches_at_any_depth() {
    let m = mapper("README.md docs\n");
    assert_eq!(m.find_service("README.md"), Some("docs"));
    assert_eq!(m.find_service("docs/README.md"), Some("docs"));
    assert_eq!(m.find_service("a/b/README.md"), Some("docs"));
    assert_eq!(m.find_service("a/b/README.txt"), None);
}

#[test]
fn star_does_not_cross_a_separator() {
    let m = mapper("docs/*.md writers\n");
    assert_eq!(m.find_service("docs/a.md"), Some("writers"));
    assert_eq!(m.find_service("docs/sub/a.md"), None);
    let deep = mapper("docs/**/*.md writers\n");
    assert_eq!(deep.find_service("docs/sub/a.md"), Some("writers"));
}

#[test]
fn trailing_slash_matches_like_recursive_glob() {
    let dir = mapper("foo/ x\n");
    let glob = mapper("foo/** x\n");
    for path in ["foo/a", "foo/a/b.txt", "foo", "a/foo/b", "foobar/a", "bar/foo", "README.md"] {
        assert_eq!(dir.find_service(path), glob.find_service(path), "path {:?}", path);
    }
    assert_eq!(dir.find_service("foo/a/b.txt"), Some("x"));
    assert_eq!(dir.find_service("a/foo/b"), None);
}

#[test]
fn double_slash_matches_everything() {
    let m = mapper("// all\n");
    assert_eq!(m.find_service("README.md"), Some("all"));
    assert_eq!(m.find_service("a/b/c"), Some("all"));
}

#[test]
fn explain_lists_matches_in_declaration_order() {
    let m = mapper("src/** team-a\ndocs/** team-b\nsrc/legacy/** team-c\n*.go gophers\n");
    assert_eq!(
        explained(&m, "src/legacy/old.go"),
        vec![
            ("src/**".to_string(), "team-a".to_string()),
            ("src/legacy/**".to_string(), "team-c".to_string()),
            ("*.go".to_string(), "gophers".to_string()),
        ]
    );
    assert!(explained(&m, "Makefile").is_empty());
}

#[test]
fn explain_carries_raw_patterns() {
    let m = mapper("/src/ team-a\n.\\docs\\ team-b\n");
    assert_eq!(explained(&m, "src/a.rs"), vec![("/src/".to_string(), "team-a".to_string())]);
    assert_eq!(explained(&m, "docs/a.md"), vec![(".\\docs\\".to_string(), "team-b".to_string())]);
    assert_eq!(m.patterns, vec!["/src/".to_string(), ".\\docs\\".to_string()]);
}

#[test]
fn resolve_agrees_with_explain() {
    let m = mapper("** everyone\nsrc/** team-a\n*.md writers\nsrc/docs/** team-d\n");
    for path in ["a.md", "src/a.md", "src/docs/a.md", "src/docs/a.rs", "x/y/z", "src"] {
        let all = m.explain_service(path);
        match m.find_service(path) {
            Some(owner) => assert_eq!(all.last().map(|e| e.service), Some(owner)),
            None => assert!(all.is_empty()),
        }
    }
    let none = mapper("src/** team-a\n");
    assert!(none.explain_service("docs/a").is_empty());
    assert_eq!(none.find_service("docs/a"), None);
}

#[test]
fn unused_patterns_are_reported() {
    let m = mapper("src/** team-a\ndocs/** team-b\n*.lock deps\nsrc/legacy/** team-c\n");
    let corpus = vec!["src/main.rs".to_string(), "Cargo.lock".to_string()];
    assert_eq!(m.unused_patterns(&corpus), vec!["docs/**".to_string(), "src/legacy/**".to_string()]);
    assert_eq!(
        m.unused_patterns(&Vec::new()),
        vec!["src/**".to_string(), "docs/**".to_string(), "*.lock".to_string(), "src/legacy/**".to_string()]
    );
    let all = vec!["src/legacy/a".to_string(), "docs/b".to_string(), "x/y.lock".to_string()];
    assert!(m.unused_patterns(&all).is_empty());
}

#[test]
fn unused_report_agrees_with_explain() {
    let m = mapper("a/** one\nb/** two\nc/** three\n");
    let corpus = vec!["a/x".to_string(), "c/y".to_string(), "d/z".to_string()];
    let unused = m.unused_patterns(&corpus);
    for pat in &m.patterns {
        let named = corpus.iter().any(|p| m.explain_service(p).iter().any(|e| &e.pattern == pat));
        assert_eq!(unused.contains(pat), !named);
    }
}

#[test]
fn single_token_line_is_a_structural_error() {
    match ServiceMapper::parse("onlypattern") {
        Err(ParseError::MissingOwner { line, content }) => {
            assert_eq!(line, 1);
            assert_eq!(content, "onlypattern");
        }
        other => panic!("unexpected: {:?}", other.err()),
    }
}

#[test]
fn structural_error_names_the_line() {
    let doc = "# owners\n\nsrc/** team-a\n   lonely   \ndocs/** team-b\n";
    match ServiceMapper::parse(doc) {
        Err(ParseError::MissingOwner { line, content }) => {
            assert_eq!(line, 4);
            assert_eq!(content, "lonely");
        }
        other => panic!("unexpected: {:?}", other.err()),
    }
}

#[test]
fn invalid_glob_names_line_and_raw_pattern() {
    match ServiceMapper::parse("src/** team-a\n/lib/[abc team-b\n") {
        Err(ParseError::PatternCompile { line, pattern }) => {
            assert_eq!(line, 2);
            assert_eq!(pattern, "/lib/[abc");
        }
        other => panic!("unexpected: {:?}", other.err()),
    }
    assert!(matches!(
        ServiceMapper::parse("a/{b,c owner\n"),
        Err(ParseError::PatternCompile { line: 1, .. })
    ));
}

#[test]
fn first_fault_is_reported() {
    assert!(matches!(
        ServiceMapper::parse("bad[ x\nlonely\n"),
        Err(ParseError::PatternCompile { line: 1, .. })
    ));
    assert!(matches!(
        ServiceMapper::parse("lonely\nbad[ x\n"),
        Err(ParseError::MissingOwner { line: 1, .. })
    ));
}

#[test]
fn comments_and_blank_lines_are_skipped() {
    let m = mapper("# header\n\n   \n  # indented comment\nsrc/** team-a\n");
    assert_eq!(m.patterns, vec!["src/**".to_string()]);
    assert_eq!(m.find_service("src/a"), Some("team-a"));
}

#[test]
fn no_inline_comments() {
    let m = mapper("src/** team-a # not a comment\n");
    assert_eq!(m.find_service("src/a"), Some("team-a # not a comment"));
}

#[test]
fn owner_may_hold_white_space() {
    let m = mapper("src/**  \t  Team Rocket  Launch \n");
    assert_eq!(m.find_service("src/a"), Some("Team Rocket  Launch"));
}

#[test]
fn carriage_returns_are_trimmed() {
    let m = mapper("src/** team-a\r\ndocs/** team-b\r\n");
    assert_eq!(m.find_service("src/a"), Some("team-a"));
    assert_eq!(m.find_service("docs/a"), Some("team-b"));
}

#[test]
fn empty_document_maps_nothing() {
    let m = mapper("");
    assert!(m.patterns.is_empty());
    assert_eq!(m.find_service("a"), None);
    assert!(m.explain_service("a").is_empty());
    assert!(m.unused_patterns(&vec!["a".to_string()]).is_empty());
}

#[test]
fn rules_keep_order_and_duplicates() {
    let m = mapper("b/** two\na/** one\nb/** again\n");
    assert_eq!(m.patterns, vec!["b/**".to_string(), "a/**".to_string(), "b/**".to_string()]);
    assert_eq!(m.find_service("b/x"), Some("again"));
    assert_eq!(
        explained(&m, "b/x"),
        vec![("b/**".to_string(), "two".to_string()), ("b/**".to_string(), "again".to_string())]
    );
}

#[test]
fn highest_is_the_greatest_index() {
    assert_eq!(highest(&vec![]), None);
    assert_eq!(highest(&vec![4]), Some(4));
    assert_eq!(highest(&vec![0, 2, 5]), Some(5));
    assert_eq!(highest(&vec![3, 1, 2]), Some(3));
}

#[test]
fn owner_of_reads_the_rule_at_the_index() {
    let m = mapper("a/** one\nb/** two\n");
    assert_eq!(m.owner_of(Some(0)), Some("one"));
    assert_eq!(m.owner_of(Some(1)), Some("two"));
    assert_eq!(m.owner_of(None), None);
}

#[test]
fn explain_hits_keeps_the_order_of_the_indices() {
    let m = mapper("a/** one\nb/** two\nc/** three\n");
    let got: Vec<(String, String)> =
        m.explain_hits(&vec![0, 2]).into_iter().map(|e| (e.pattern, e.service.to_string())).collect();
    assert_eq!(
        got,
        vec![("a/**".to_string(), "one".to_string()), ("c/**".to_string(), "three".to_string())]
    );
    assert!(m.explain_hits(&vec![]).is_empty());
}

#[test]
fn lines_are_read_one_by_one() {
    assert!(matches!(parse_line(""), LineEntry::Skip));
    assert!(matches!(parse_line("   \t"), LineEntry::Skip));
    assert!(matches!(parse_line("  # src/** team"), LineEntry::Skip));
    match parse_line("  lonely\t") {
        LineEntry::Malformed { content } => assert_eq!(content, "lonely"),
        other => panic!("unexpected: {:?}", other),
    }
    match parse_line(" src/**\t  Team A  ") {
        LineEntry::Entry { raw, owner } => {
            assert_eq!(raw, "src/**");
            assert_eq!(owner, "Team A");
        }
        other => panic!("unexpected: {:?}", other),
    }
    match parse_line("a#b c") {
        LineEntry::Entry { raw, owner } => {
            assert_eq!(raw, "a#b");
            assert_eq!(owner, "c");
        }
        other => panic!("unexpected: {:?}", other),
    }
}
