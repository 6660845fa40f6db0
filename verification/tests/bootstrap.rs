use serviceowners::bootstrap::{infer_from, infer_service_name, init_from_codeowners};

#[test]
fn name_comes_from_last_telling_segment() {
    assert_eq!(infer_service_name("/services/payments/", &["@org/pay"]), "payments");
    assert_eq!(infer_service_name("apps/web/src/**", &["@org/web"]), "web");
    assert_eq!(infer_service_name("packages/ui/lib/*", &[]), "ui");
}

#[test]
fn name_is_sanitized_and_lowered() {
    assert_eq!(infer_service_name("apps/Web-App/**", &[]), "web_app");
    assert_eq!(infer_service_name("*.Rs", &["@alice"]), "__rs");
    assert_eq!(infer_service_name("docs/ÉCOLE 1", &[]), "école_1");
}

#[test]
fn falls_back_to_first_identity() {
    assert_eq!(infer_service_name("*", &["@org/Team-Core", "@bob"]), "team_core");
    assert_eq!(infer_service_name("/src/**", &["@Alice-B"]), "alice_b");
    assert_eq!(infer_service_name("/", &["@@x/y/z-w"]), "y/z_w");
    assert_eq!(infer_service_name("**", &["dev@example.com"]), "dev@example.com");
}

#[test]
fn falls_back_to_placeholder() {
    assert_eq!(infer_service_name("*", &[]), "unknown_service");
    assert_eq!(infer_service_name("", &[]), "unknown_service");
    assert_eq!(infer_service_name("/src/lib/", &[]), "unknown_service");
}

#[test]
fn empty_inner_segment_is_passed_over_only_as_last() {
    assert_eq!(infer_service_name("a//b", &[]), "b");
    assert_eq!(infer_service_name("a//src", &["@o"]), "o");
}

#[test]
fn infer_from_takes_one_identity() {
    assert_eq!(infer_from("lib", Some("@org/x-y")), "x_y");
    assert_eq!(infer_from("lib", None), "unknown_service");
    assert_eq!(infer_from("tools/CLI", Some("@org/x-y")), "cli");
}

#[test]
fn draft_has_header_and_padded_lines() {
    let legacy = "# legacy\n\n/services/api/ @org/api-team @bob\n*   @alice\nonly\n";
    let expected = "# Generated from CODEOWNERS by serviceowners (init)\n\
                    # pattern            service\n\
                    /services/api/       api\n\
                    *                    alice\n";
    assert_eq!(init_from_codeowners(legacy), expected);
}

#[test]
fn draft_of_nothing_is_the_header() {
    let header = "# Generated from CODEOWNERS by serviceowners (init)\n# pattern            service\n";
    assert_eq!(init_from_codeowners(""), header);
    assert_eq!(init_from_codeowners("# nothing here\n\n"), header);
}

#[test]
fn long_patterns_are_not_cut() {
    let out = init_from_codeowners("/a/very/long/path/to/some/service/ @x\n");
    assert!(out.ends_with("/a/very/long/path/to/some/service/ service\n"));
}

#[test]
fn draft_parses_as_a_rule_document() {
    let out = init_from_codeowners("/services/api/ @org/api-team\ndocs/ @org/writers\n");
    let m = match serviceowners::mapper::ServiceMapper::parse(&out) {
        Ok(m) => m,
        Err(e) => panic!("{:?}", e),
    };
    assert_eq!(m.find_service("services/api/main.rs"), Some("api"));
    assert_eq!(m.find_service("docs/intro.md"), Some("docs"));
}
