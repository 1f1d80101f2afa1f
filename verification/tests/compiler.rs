use redirects::compile::BuildError;
use redirects::output::WriteError;
use redirects::rules::{RedirectsMap, RedirectsSource};
use redirects::validate::{
    is_valid_redirect_source, is_valid_redirect_target, ValidationBehavior, ValidationBehaviors,
};

fn source(origin: &str, contents: &str) -> RedirectsSource {
    RedirectsSource {
        origin: origin.as_bytes().to_vec(),
        contents: contents.as_bytes().to_vec(),
    }
}

const HEADER: &str = "# Validated redirects, DO NOT EDIT. EDITING WILL CAUSE INCORRECT REDIRECTS!";

fn text(bytes: &[u8]) -> String {
    String::from_utf8(bytes.to_vec()).unwrap()
}

#[test]
fn test_loop_within_new_rules() {
    let mut redirects = RedirectsMap::new(302);
    let rules = source("test", "/path-a /path-b\n/path-b /path-c\n/path-c /path-a");
    redirects.add_rules(&rules, &ValidationBehaviors::default());
    assert!(redirects.parse_errors.is_empty(), "No parse errors expected");

    let result = redirects.check_for_loops();
    assert!(result.is_err(), "Loop should be detected");

    let err_msg = text(&redirects::loops::loops_message(&result.unwrap_err()));
    assert!(err_msg.contains("/path-a"), "Error should mention path-a");
    assert!(err_msg.contains("/path-b"), "Error should mention path-b");
    assert!(err_msg.contains("/path-c"), "Error should mention path-c");
}

#[test]
fn test_loop_with_existing_and_new_rules() {
    let mut redirects = RedirectsMap::new(302);
    let rules = source("existing", "/existing-1 /existing-2\n/existing-2 /existing-3");
    redirects.add_rules(&rules, &ValidationBehaviors::default());
    assert!(redirects.parse_errors.is_empty(), "No parse errors expected");

    let rules = source("new", "/existing-3 /existing-1");
    redirects.add_rules(&rules, &ValidationBehaviors::default());

    let result = redirects.check_for_loops();
    assert!(result.is_err(), "Loop should be detected after adding new rule");

    let err_msg = text(&redirects::loops::loops_message(&result.unwrap_err()));
    assert!(err_msg.contains("/existing-1"), "Error should mention existing-1");
    assert!(err_msg.contains("/existing-2"), "Error should mention existing-2");
    assert!(err_msg.contains("/existing-3"), "Error should mention existing-3");
}

#[test]
fn test_self_referential_loop() {
    let mut redirects = RedirectsMap::new(302);
    let rules = source("new", "/self-loop /self-loop");
    redirects.add_rules(&rules, &ValidationBehaviors::default());
    assert!(!redirects.parse_errors.is_empty(), "Self-loop should be detected");

    assert_eq!(redirects.parse_errors[0].line_no, 0, "Error should mention correct line");
}

#[test]
fn test_no_loops() {
    let mut redirects = RedirectsMap::new(302);
    let rules = source("test", "/start /middle\n/middle /end");
    redirects.add_rules(&rules, &ValidationBehaviors::default());

    assert!(
        redirects.parse_errors.is_empty(),
        "No loop should be detected in a valid redirect chain"
    );
}

#[test]
fn test_update_redirects_with_loop() {
    let existing_content = vec![source(
        "existing",
        &format!("{HEADER}\n/path-x /path-y\n/path-y /path-z"),
    )];
    let new_sources = vec![source("new", "/path-z /path-x")];

    let result = RedirectsMap::build(
        &existing_content,
        &new_sources,
        302,
        &ValidationBehaviors::default(),
    );

    let err_msg = text(&result.err().unwrap().message());
    assert!(err_msg.contains("Loops detected"), "Error should mention loop detection");
    assert!(err_msg.contains("/path-x"), "Error should mention path-x");
    assert!(err_msg.contains("/path-y"), "Error should mention path-y");
    assert!(err_msg.contains("/path-z"), "Error should mention path-z");
}

#[test]
fn test_multiple_files_creating_loop() {
    let existing_content = vec![source("existing", &format!("{HEADER}\n/start /middle"))];
    let new_readers = vec![source("new1", "/middle /next"), source("new2", "/next /start")];

    let result = RedirectsMap::build(
        &existing_content,
        &new_readers,
        302,
        &ValidationBehaviors::default(),
    );

    let err_msg = text(&result.err().unwrap().message());
    assert!(err_msg.contains("Loops detected"), "Error should mention loop detection");
    assert!(err_msg.contains("/start"), "Error should mention /start");
    assert!(err_msg.contains("/middle"), "Error should mention /middle");
    assert!(err_msg.contains("/next"), "Error should mention /next");
}

#[test]
fn test_update_redirects_no_loop() {
    let existing_content = vec![source(
        "existing",
        &format!("{HEADER}\n/old /new\n/old/page /new/page"),
    )];
    let new_sources = vec![source("existing", "/another /destination\n/yet-another /final")];

    let result = RedirectsMap::build(
        &existing_content,
        &new_sources,
        302,
        &ValidationBehaviors::default(),
    );

    assert!(result.is_ok(), "Redirect update should succeed when no loops exist");
    let redirects = result.unwrap();
    assert_eq!(redirects.len(), 4, "Combined map should have 4 entries");
}

#[test]
fn test_invalid_line_behavior_error() {
    let mut redirects = RedirectsMap::new(302);
    let rules = source("invalid", "/valid /target\ninvalid line\n/another /valid");
    let behaviors = ValidationBehaviors {
        invalid_lines: ValidationBehavior::Error,
        ..Default::default()
    };
    redirects.add_rules(&rules, &behaviors);
    assert_eq!(redirects.len(), 2);
    assert_eq!(redirects.parse_errors.len(), 1);
    assert_eq!(redirects.parse_errors[0].severity, ValidationBehavior::Error);
    assert!(text(&redirects.parse_errors[0].message).contains("Invalid format"));
}

#[test]
fn test_invalid_line_behavior_warn() {
    let mut redirects = RedirectsMap::new(302);
    let rules = source("invalid", "/valid /target\ninvalid line\n/another /valid");
    let behaviors = ValidationBehaviors {
        invalid_lines: ValidationBehavior::Warn,
        ..Default::default()
    };
    redirects.add_rules(&rules, &behaviors);
    assert_eq!(redirects.len(), 2);
    assert_eq!(redirects.parse_errors.len(), 1);
    assert_eq!(redirects.parse_errors[0].severity, ValidationBehavior::Warn);
}

#[test]
fn test_invalid_line_behavior_ignore() {
    let mut redirects = RedirectsMap::new(302);
    let rules = source("invalid", "/valid /target\ninvalid line\n/another /valid");
    let behaviors = ValidationBehaviors {
        invalid_lines: ValidationBehavior::Ignore,
        ..Default::default()
    };
    redirects.add_rules(&rules, &behaviors);
    assert_eq!(redirects.len(), 2);
    assert_eq!(
        redirects
            .parse_errors
            .iter()
            .filter(|e| e.severity != ValidationBehavior::Ignore)
            .count(),
        0
    );
}

#[test]
fn test_self_loop_behavior_error() {
    let mut redirects = RedirectsMap::new(302);
    let rules = source("self_loop", "/a /a");
    let behaviors = ValidationBehaviors {
        self_loops: ValidationBehavior::Error,
        ..Default::default()
    };
    redirects.add_rules(&rules, &behaviors);
    assert!(redirects.is_empty());
    assert_eq!(redirects.parse_errors.len(), 1);
    assert_eq!(redirects.parse_errors[0].severity, ValidationBehavior::Error);
}

#[test]
fn test_is_valid_redirect_source() {
    assert!(is_valid_redirect_source(b"/valid/path"));
    assert!(is_valid_redirect_source(b"/"));
    assert!(is_valid_redirect_source(b"/path?query=1"));
    assert!(!is_valid_redirect_source(b"invalid/path"));
    assert!(!is_valid_redirect_source(b"https://example.com/path"));
    assert!(is_valid_redirect_source(b"/path%20with%20space"));
}

#[test]
fn test_is_valid_redirect_target() {
    assert!(is_valid_redirect_target(b"/valid/relative/path"));
    assert!(is_valid_redirect_target(b"https://absolute.url/path"));
    assert!(is_valid_redirect_target(b"http://absolute.url/path?query=1#fragment"));
    assert!(!is_valid_redirect_target(b"invalid-relative-path"));
    assert!(!is_valid_redirect_target(b"ftp://invalid.scheme"));
    assert!(!is_valid_redirect_target(b"/<with>invalid|chars"));
    assert!(is_valid_redirect_target(b"/path%20with%20space"));
}

#[test]
fn test_chain_shortening() {
    let mut redirects = RedirectsMap::new(302);
    let rules = source("chains", "/a /b\n/b /c\n/c /d\n/x /y\n/y /z");
    redirects.add_rules(&rules, &ValidationBehaviors::default());
    assert!(redirects.parse_errors.is_empty());

    redirects.shorten_chains();

    assert_eq!(redirects.get(b"/a").unwrap().to, b"/d");
    assert_eq!(redirects.get(b"/b").unwrap().to, b"/d");
    assert_eq!(redirects.get(b"/c").unwrap().to, b"/d");
    assert_eq!(redirects.get(b"/x").unwrap().to, b"/z");
    assert_eq!(redirects.get(b"/y").unwrap().to, b"/z");
}

#[test]
fn test_inline_comments() {
    let mut redirects = RedirectsMap::new(302);
    let rules = source(
        "comments",
        "/valid /target # This is a comment\n/another /valid  # Comment with spaces\n# Just a comment line\n/no-comment /here",
    );
    redirects.add_rules(&rules, &ValidationBehaviors::default());
    assert!(redirects.parse_errors.is_empty(), "No errors expected with valid comments");
    assert_eq!(redirects.len(), 3, "Should parse 3 valid rules");
    assert!(redirects.contains_key(b"/valid"));
    assert_eq!(redirects.get(b"/valid").unwrap().to, b"/target");
    assert!(redirects.contains_key(b"/another"));
    assert_eq!(redirects.get(b"/another").unwrap().to, b"/valid");
    assert!(redirects.contains_key(b"/no-comment"));
    assert_eq!(redirects.get(b"/no-comment").unwrap().to, b"/here");
}

#[test]
fn test_inline_comment_invalid_rule() {
    let mut redirects = RedirectsMap::new(302);
    let rules = source("invalid_comment", "/invalid # comment");
    let behaviors = ValidationBehaviors {
        invalid_lines: ValidationBehavior::Warn,
        ..Default::default()
    };
    redirects.add_rules(&rules, &behaviors);
    assert!(redirects.is_empty(), "Invalid rule should not be added");
    assert_eq!(redirects.parse_errors.len(), 1, "Should have one parse error");
    assert_eq!(redirects.parse_errors[0].severity, ValidationBehavior::Warn);
    assert!(text(&redirects.parse_errors[0].message).contains("Missing target"));
    assert_eq!(redirects.parse_errors[0].line, b"/invalid # comment");
}

#[test]
fn test_hash_in_path_not_a_comment() {
    let mut redirects = RedirectsMap::new(302);
    let rules = source("hash_path", "/path#frag /target");
    redirects.add_rules(&rules, &ValidationBehaviors::default());
    assert!(redirects.is_empty(), "Invalid rule should not be added");
    assert_eq!(redirects.parse_errors.len(), 1, "Should have one parse error");
    assert!(text(&redirects.parse_errors[0].message).contains("Missing target"));
}

#[test]
fn test_parse_line_with_status_code() {
    let mut redirects = RedirectsMap::new(302);
    let rules = source("test", "/source /target 301\n/source2 /target2");
    redirects.add_rules(&rules, &ValidationBehaviors::default());
    assert_eq!(redirects.get(b"/source").unwrap().status_code, 301);
    assert_eq!(redirects.get(b"/source2").unwrap().status_code, 302);
}

#[test]
fn test_invalid_status_codes() {
    let mut redirects = RedirectsMap::new(302);
    let rules = source(
        "test",
        "/source /target abc\n/source2 /target2 200\n/source3 /target3 600",
    );
    redirects.add_rules(&rules, &ValidationBehaviors::default());

    assert!(!redirects.contains_key(b"/source"));
    assert!(!redirects.contains_key(b"/source2"));
    assert!(!redirects.contains_key(b"/source3"));
    assert_eq!(redirects.parse_errors.len(), 3);
}

#[test]
fn test_valid_redirect_status_codes() {
    let mut redirects = RedirectsMap::new(302);
    let rules = source(
        "test",
        "/source1 /target1 301\n/source2 /target2 302\n/source3 /target3 307\n/source4 /target4 308",
    );
    redirects.add_rules(&rules, &ValidationBehaviors::default());

    assert_eq!(redirects.get(b"/source1").unwrap().status_code, 301);
    assert_eq!(redirects.get(b"/source2").unwrap().status_code, 302);
    assert_eq!(redirects.get(b"/source3").unwrap().status_code, 307);
    assert_eq!(redirects.get(b"/source4").unwrap().status_code, 308);
    assert_eq!(redirects.len(), 4);
    assert_eq!(redirects.parse_errors.len(), 0);
}

#[test]
fn test_status_codes_with_chain_shortening() {
    let mut redirects = RedirectsMap::new(302);
    let rules = source("chains", "/a /b 301\n/b /c 301\n/c /d 301");
    redirects.add_rules(&rules, &ValidationBehaviors::default());
    assert!(redirects.parse_errors.is_empty());

    redirects.shorten_chains();

    assert_eq!(redirects.get(b"/a").unwrap().to, b"/d");
    assert_eq!(redirects.get(b"/a").unwrap().status_code, 301);

    assert_eq!(redirects.get(b"/b").unwrap().to, b"/d");
    assert_eq!(redirects.get(b"/b").unwrap().status_code, 301);
}

#[test]
fn test_mixed_status_codes_and_defaults() {
    let mut redirects = RedirectsMap::new(302);
    let rules = source("mixed", "/page1 /page2\n/page2 /page3 301\n/page3 /page4\n/page4 /page5");
    redirects.add_rules(&rules, &ValidationBehaviors::default());

    assert_eq!(redirects.get(b"/page1").unwrap().status_code, 302);
    assert_eq!(redirects.get(b"/page2").unwrap().status_code, 301);
    assert_eq!(redirects.get(b"/page3").unwrap().status_code, 302);
    assert_eq!(redirects.get(b"/page4").unwrap().status_code, 302);

    redirects.shorten_chains();

    assert_eq!(redirects.get(b"/page1").unwrap().to, b"/page2");
    assert_eq!(redirects.get(b"/page1").unwrap().status_code, 302);

    assert_eq!(redirects.get(b"/page2").unwrap().to, b"/page3");
    assert_eq!(redirects.get(b"/page2").unwrap().status_code, 301);

    assert_eq!(redirects.get(b"/page3").unwrap().to, b"/page5");
    assert_eq!(redirects.get(b"/page3").unwrap().status_code, 302);
}

#[test]
fn duplicate_sources_last_write_wins() {
    let mut redirects = RedirectsMap::new(302);
    redirects.add_rules(&source("a", "/dup /first\n/dup /second"), &ValidationBehaviors::default());
    assert_eq!(redirects.len(), 1);
    assert_eq!(redirects.get(b"/dup").unwrap().to, b"/second");

    redirects.add_rules(&source("b", "/dup /third 307"), &ValidationBehaviors::default());
    assert_eq!(redirects.len(), 1);
    assert_eq!(redirects.get(b"/dup").unwrap().to, b"/third");
    assert_eq!(redirects.get(b"/dup").unwrap().status_code, 307);
}

#[test]
fn empty_source_adds_nothing() {
    let mut redirects = RedirectsMap::new(302);
    redirects.add_rules(&source("empty", ""), &ValidationBehaviors::default());
    assert!(redirects.is_empty());
    assert!(redirects.parse_errors.is_empty());
}

#[test]
fn parse_line_empty_rule_part() {
    let mut redirects = RedirectsMap::new(302);
    let src = source("direct", "");
    redirects.parse_line(b"", b"", &ValidationBehaviors::default(), &src, 5);
    assert_eq!(redirects.parse_errors.len(), 1);
    assert_eq!(text(&redirects.parse_errors[0].message), "Empty line");
    assert_eq!(redirects.parse_errors[0].line_no, 5);
}

#[test]
fn parse_line_too_many_parts() {
    let mut redirects = RedirectsMap::new(302);
    let src = source("direct", "");
    redirects.parse_line(b"/a /b /c /d", b"/a /b /c /d", &ValidationBehaviors::default(), &src, 0);
    assert_eq!(redirects.parse_errors.len(), 1);
    assert_eq!(
        text(&redirects.parse_errors[0].message),
        "Line must contain 2 or 3 whitespace-separated parts, but found 4"
    );
}

#[test]
fn build_rejects_missing_baseline_header() {
    let existing = vec![source("existing", "/old /new")];
    let result = RedirectsMap::build(&existing, &vec![], 302, &ValidationBehaviors::default());
    let err = result.err().unwrap();
    assert!(matches!(err, BuildError::BaselineHeader { .. }));
    assert!(text(&err.message()).contains("must be generated by this tool"));
}

#[test]
fn build_rejects_baseline_parse_errors() {
    let existing = vec![source("existing", &format!("{HEADER}\nnot a rule at all here extra"))];
    let result = RedirectsMap::build(&existing, &vec![], 302, &ValidationBehaviors::default());
    let err = result.err().unwrap();
    assert!(matches!(err, BuildError::BaselineParse));
}

#[test]
fn build_reports_rule_errors_after_parsing_all_sources() {
    let new_sources = vec![source("new", "/ok /fine\nbroken"), source("new2", "also broken")];
    let result = RedirectsMap::build(&vec![], &new_sources, 302, &ValidationBehaviors::default());
    match result.err().unwrap() {
        BuildError::RuleErrors { errors } => {
            assert_eq!(errors.len(), 2);
        }
        other => panic!("expected rule errors, got {:?}", other.message()),
    }
}

#[test]
fn write_to_file_exclude_existing_lines() {
    let existing = vec![source("existing", &format!("{HEADER}\n/old /intermediate"))];
    let new_sources = vec![source("new", "/intermediate /new\n/another /rule")];
    let map = RedirectsMap::build(&existing, &new_sources, 302, &ValidationBehaviors::default())
        .unwrap();

    let lines = map.write_to_file(Some(&existing)).unwrap();
    let rendered: Vec<String> = lines.iter().map(|l| text(l)).collect();
    assert_eq!(rendered, vec!["/another /rule", "/intermediate /new", "/old /new"]);
}

#[test]
fn write_to_file_include_existing_lines() {
    let existing = vec![source("existing", &format!("{HEADER}\n/old /intermediate"))];
    let new_sources = vec![source("new", "/intermediate /new\n/another /rule")];
    let map = RedirectsMap::build(&existing, &new_sources, 302, &ValidationBehaviors::default())
        .unwrap();

    let lines = map.write_to_file(None).unwrap();
    let rendered: Vec<String> = lines.iter().map(|l| text(l)).collect();
    assert_eq!(rendered, vec!["/another /rule", "/intermediate /new", "/old /new"]);
}

#[test]
fn write_to_file_no_new_rules() {
    let existing = vec![source("existing", &format!("{HEADER}\n/old /intermediate"))];
    let map = RedirectsMap::build(&existing, &vec![], 302, &ValidationBehaviors::default())
        .unwrap();

    let result = map.write_to_file(Some(&existing));
    assert!(matches!(result, Err(WriteError::NoNewRules)));
}

#[test]
fn write_to_file_rejects_unheadered_exclusions() {
    let map = RedirectsMap::build(
        &vec![],
        &vec![source("new", "/a /b")],
        302,
        &ValidationBehaviors::default(),
    )
    .unwrap();
    let bogus = vec![source("bogus", "/not /a-baseline")];
    let result = map.write_to_file(Some(&bogus));
    assert!(matches!(result, Err(WriteError::MissingHeader)));
}

#[test]
fn status_codes_in_rendered_output() {
    let mut redirects = RedirectsMap::new(302);
    redirects.add_rules(
        &source("test", "/source1 /target1 301\n/source2 /target2"),
        &ValidationBehaviors::default(),
    );
    let lines = redirects.write_to_file(None).unwrap();
    let rendered: Vec<String> = lines.iter().map(|l| text(l)).collect();
    assert!(rendered.contains(&"/source1 /target1 301".to_string()));
    assert!(rendered.contains(&"/source2 /target2".to_string()));
}

#[test]
fn custom_status_codes_stop_shortening_in_output() {
    let existing = vec![source("existing", &format!("{HEADER}\n/old /intermediate 301"))];
    let new_sources = vec![source("new", "/intermediate /new 308\n/another /rule 307")];
    let map = RedirectsMap::build(&existing, &new_sources, 302, &ValidationBehaviors::default())
        .unwrap();

    let lines = map.write_to_file(None).unwrap();
    let rendered: Vec<String> = lines.iter().map(|l| text(l)).collect();
    assert!(rendered.contains(&"/old /intermediate 301".to_string()));
    assert!(rendered.contains(&"/intermediate /new 308".to_string()));
    assert!(rendered.contains(&"/another /rule 307".to_string()));
}

#[test]
fn recompiling_shortened_output_changes_nothing() {
    let new_sources = vec![source("new", "/a /b 301\n/b /c 301\n/c /d 301\n/other /place")];
    let first = RedirectsMap::build(&vec![], &new_sources, 302, &ValidationBehaviors::default())
        .unwrap();
    let lines = first.write_to_file(None).unwrap();

    let mut baseline_text = String::from(HEADER);
    for line in &lines {
        baseline_text.push('\n');
        baseline_text.push_str(&text(line));
    }
    let baseline = vec![source("baseline", &baseline_text)];

    let second = RedirectsMap::build(&baseline, &vec![], 302, &ValidationBehaviors::default())
        .unwrap();
    assert_eq!(second.len(), first.len());
    let second_lines = second.write_to_file(None).unwrap();
    assert_eq!(lines, second_lines);

    let unchanged = second.write_to_file(Some(&baseline));
    assert!(matches!(unchanged, Err(WriteError::NoNewRules)));
}

#[test]
fn loops_ignored_by_policy_skip_shortening() {
    let behaviors = ValidationBehaviors {
        loops: ValidationBehavior::Ignore,
        ..Default::default()
    };
    let new_sources = vec![source("new", "/a /b\n/b /a")];
    let map = RedirectsMap::build(&vec![], &new_sources, 302, &behaviors).unwrap();
    assert_eq!(map.len(), 2);
    assert_eq!(map.get(b"/a").unwrap().to, b"/b");
    assert_eq!(map.get(b"/b").unwrap().to, b"/a");
}

#[test]
fn self_loop_kept_under_ignore_policy() {
    let behaviors = ValidationBehaviors {
        self_loops: ValidationBehavior::Ignore,
        ..Default::default()
    };
    let mut redirects = RedirectsMap::new(302);
    redirects.add_rules(&source("self_loop", "/a /a"), &behaviors);
    assert_eq!(redirects.len(), 1);
    assert_eq!(redirects.get(b"/a").unwrap().to, b"/a");
    assert!(redirects.parse_errors.is_empty());
    // The kept rule is a one-edge cycle, which loop detection reports.
    assert!(redirects.check_for_loops().is_err());
}
