use serviceowners::pattern::normalize_pattern;

#[test]
fn blank_patterns_stay_empty() {
    assert_eq!(normalize_pattern(""), "");
    assert_eq!(normalize_pattern("   "), "");
    assert_eq!(normalize_pattern("\t\u{3000} \n"), "");
}

#[test]
fn surrounding_white_space_is_trimmed() {
    assert_eq!(normalize_pattern("  src/main.rs \t"), "src/main.rs");
    assert_eq!(normalize_pattern("\u{a0}docs/**\u{2003}"), "docs/**");
}

#[test]
fn backslashes_become_slashes() {
    assert_eq!(normalize_pattern("src\\lib\\mod.rs"), "src/lib/mod.rs");
    assert_eq!(normalize_pattern("\\foo\\bar"), "foo/bar");
    assert_eq!(normalize_pattern(".\\foo"), "**/foo");
}

#[test]
fn leading_dot_slash_is_stripped_repeatedly() {
    assert_eq!(normalize_pattern("./foo/bar"), "foo/bar");
    assert_eq!(normalize_pattern("./././foo/bar"), "foo/bar");
    assert_eq!(normalize_pattern("././foo"), "**/foo");
    assert_eq!(normalize_pattern(".foo/bar"), ".foo/bar");
}

#[test]
fn one_leading_slash_is_stripped() {
    assert_eq!(normalize_pattern("/foo/bar"), "foo/bar");
    assert_eq!(normalize_pattern("//foo/bar"), "/foo/bar");
    assert_eq!(normalize_pattern("/foo"), "**/foo");
}

#[test]
fn leading_slash_is_dropped() {
    assert_eq!(normalize_pattern("/foo/bar"), normalize_pattern("foo/bar"));
}

#[test]
fn trailing_slash_becomes_recursive() {
    assert_eq!(normalize_pattern("foo/"), "foo/**");
    assert_eq!(normalize_pattern("foo/**"), "foo/**");
    assert_eq!(normalize_pattern("foo/bar/"), "foo/bar/**");
    assert_eq!(normalize_pattern("/foo/"), "foo/**");
}

#[test]
fn lone_slash_after_stripping_matches_everything() {
    assert_eq!(normalize_pattern("//"), "**");
    assert_eq!(normalize_pattern(".///"), "**");
    assert_eq!(normalize_pattern("\\\\"), "**");
}

#[test]
fn steps_run_in_order() {
    // The leading slash goes before the trailing slash is looked at.
    assert_eq!(normalize_pattern("/"), "**/");
    assert_eq!(normalize_pattern("./"), "**/");
    assert_eq!(normalize_pattern(".//"), "**/");
}

#[test]
fn bare_names_match_at_any_depth() {
    assert_eq!(normalize_pattern("README.md"), "**/README.md");
    assert_eq!(normalize_pattern("*.go"), "**/*.go");
    assert_eq!(normalize_pattern("**"), "**/**");
}

#[test]
fn patterns_with_a_slash_are_kept() {
    assert_eq!(normalize_pattern("src/**"), "src/**");
    assert_eq!(normalize_pattern("a/b/c.txt"), "a/b/c.txt");
}

#[test]
fn normalizing_twice_changes_nothing_more() {
    for p in [
        "foo/", "/foo/bar", "README.md", "./a/b", "src\\lib", "  docs/  ", "*.md", "a/b/", "x",
        "./x/",
    ] {
        let once = normalize_pattern(p);
        assert!(!once.is_empty());
        assert_eq!(normalize_pattern(&once), once, "pattern {:?}", p);
    }
}

#[test]
fn canonical_forms_that_do_not_settle() {
    // A stem that is a lone slash, or that keeps a leading slash, changes again.
    assert_eq!(normalize_pattern(&normalize_pattern("//")), "**/**");
    assert_eq!(normalize_pattern(&normalize_pattern("//a")), "**/a");
}
