use claude_self::{
    aspirations_bullet_count, canonical_sections, find_duplicate_bullets, lint_contents,
    split_lines, LintRule, LINT_MAX_LINES,
};

const GOOD_FILE: &str = "# Header\n## Voice\n- Terse.\n## Values\n- Honest.\n## Defaults\n- Parallel tool calls.\n## Things I keep getting wrong\n- Over-narrating.\n## Aspirations\n- Be a collaborator.\n## Boundaries\n- No irreversible ops without approval.\n## Changelog\n- 2026-05-23 (assistant): seed.\n";

fn chars(s: &str) -> Vec<char> {
    s.chars().collect()
}

fn lines(s: &str) -> Vec<Vec<char>> {
    split_lines(s)
}

fn strings(items: &[&str]) -> Vec<String> {
    items.iter().map(|s| s.to_string()).collect()
}

#[test]
fn good_file_report_is_exact() {
    let report = lint_contents(GOOD_FILE);
    assert_eq!(report.line_count, 15);
    assert!(report.violations.is_empty());
    assert!(report.passed());
}

#[test]
fn empty_text_has_no_lines_and_two_violations() {
    let report = lint_contents("");
    assert_eq!(report.line_count, 0);
    assert_eq!(
        report.violations,
        vec![
            LintRule::SectionMismatch { expected: canonical_sections(), got: Vec::new() },
            LintRule::EmptyAspirations,
        ]
    );
    assert!(!report.passed());
}

#[test]
fn canonical_sections_in_order() {
    assert_eq!(
        canonical_sections(),
        strings(&[
            "Voice",
            "Values",
            "Defaults",
            "Things I keep getting wrong",
            "Aspirations",
            "Boundaries",
            "Changelog",
        ])
    );
}

#[test]
fn split_lines_follows_line_endings() {
    assert_eq!(lines(""), Vec::<Vec<char>>::new());
    assert_eq!(lines("\n"), vec![chars("")]);
    assert_eq!(lines("a\r\nb\n"), vec![chars("a"), chars("b")]);
    assert_eq!(lines("a\n\nb"), vec![chars("a"), chars(""), chars("b")]);
    assert_eq!(lines("a\r"), vec![chars("a\r")]);
    assert_eq!(lines("a\rb\n"), vec![chars("a\rb")]);
}

#[test]
fn crlf_file_lints_clean() {
    let crlf = GOOD_FILE.replace('\n', "\r\n");
    let report = lint_contents(&crlf);
    assert_eq!(report.line_count, 15);
    assert!(report.passed(), "got {:?}", report.violations);
}

#[test]
fn final_line_feed_changes_nothing() {
    let without = GOOD_FILE.trim_end_matches('\n');
    let a = lint_contents(without);
    let b = lint_contents(GOOD_FILE);
    assert_eq!(a.line_count, b.line_count);
    assert_eq!(a.violations, b.violations);
    let bad_without = "## Voice\n- x\n- x";
    let bad_with = "## Voice\n- x\n- x\n";
    assert_eq!(lint_contents(bad_without).violations, lint_contents(bad_with).violations);
}

#[test]
fn line_count_violation_is_exact() {
    let mut text = String::new();
    for i in 0..201 {
        text.push_str(&format!("- v{i}\n"));
    }
    let report = lint_contents(&text);
    assert_eq!(report.line_count, 201);
    assert_eq!(report.violations[0], LintRule::LineCount { actual: 201, cap: LINT_MAX_LINES });
    let mut at_cap = String::new();
    for i in 0..200 {
        at_cap.push_str(&format!("- v{i}\n"));
    }
    let report = lint_contents(&at_cap);
    assert!(!report.violations.iter().any(|v| matches!(v, LintRule::LineCount { .. })));
}

#[test]
fn header_names_are_trimmed() {
    let text = GOOD_FILE.replace("## Voice", "##   Voice \t").replace("## Values", "## \u{a0}Values\u{3000}");
    assert!(lint_contents(&text).passed());
    let untrimmed = GOOD_FILE.replace("## Voice", "##Voice");
    let report = lint_contents(&untrimmed);
    match &report.violations[0] {
        LintRule::SectionMismatch { got, .. } => assert_eq!(got[0], "Values"),
        other => panic!("unexpected {:?}", other),
    }
}

#[test]
fn section_mismatch_lists_got_in_order() {
    let text = "## Values\n## Voice\n## Aspirations\n- a\n";
    let report = lint_contents(text);
    assert_eq!(
        report.violations,
        vec![LintRule::SectionMismatch {
            expected: canonical_sections(),
            got: strings(&["Values", "Voice", "Aspirations"]),
        }]
    );
}

#[test]
fn aspiration_bullets_need_text() {
    assert_eq!(aspirations_bullet_count(&lines("## Aspirations\n- a\n- b\n-\n- \n-  c\n")), 2);
    assert_eq!(aspirations_bullet_count(&lines("## Aspirations\n- \u{3000}x\n-x\n")), 0);
    assert_eq!(aspirations_bullet_count(&lines("- a\n## Voice\n- b\n")), 0);
    assert_eq!(aspirations_bullet_count(&lines("## Aspirations \n- a\n## Voice\n- b\n## Aspirations\n- c\n")), 2);
    assert_eq!(aspirations_bullet_count(&lines("## aspirations\n- a\n")), 0);
}

#[test]
fn duplicates_are_per_section_block() {
    let d = find_duplicate_bullets(&lines("- x\n- x\n## A\n- y\n- y\n- y\n## A\n- y\n## B\n- x\n"));
    assert_eq!(
        d,
        vec![
            (String::new(), "- x".to_string()),
            ("A".to_string(), "- y".to_string()),
            ("A".to_string(), "- y".to_string()),
        ]
    );
    assert!(find_duplicate_bullets(&lines("## A\n- y\n- y \ntext\ntext\n")).is_empty());
}

#[test]
fn violations_come_in_rule_order() {
    let mut text = String::from("## Voice\n- a\n- a\n");
    for i in 0..200 {
        text.push_str(&format!("line {i}\n"));
    }
    let report = lint_contents(&text);
    assert_eq!(report.violations.len(), 4);
    assert!(matches!(report.violations[0], LintRule::LineCount { actual: 203, cap: 200 }));
    assert!(matches!(report.violations[1], LintRule::SectionMismatch { .. }));
    assert!(matches!(report.violations[2], LintRule::EmptyAspirations));
    assert_eq!(
        report.violations[3],
        LintRule::DuplicateBullets { duplicates: vec![("Voice".to_string(), "- a".to_string())] }
    );
}

#[test]
fn messages_are_exact() {
    assert_eq!(
        LintRule::LineCount { actual: 203, cap: 200 }.message(),
        "line-count: 203 lines exceeds cap of 200"
    );
    assert_eq!(LintRule::LineCount { actual: 0, cap: 9 }.message(), "line-count: 0 lines exceeds cap of 9");
    assert_eq!(
        LintRule::EmptyAspirations.message(),
        "empty-aspirations: Aspirations section is empty (must have >=1 bullet)"
    );
    assert_eq!(
        LintRule::SectionMismatch { expected: strings(&["A", "B"]), got: strings(&["B"]) }.message(),
        "section-mismatch: section headers do not match canonical set\n  expected:\n    A\n    B\n  got:\n    B\n"
    );
    assert_eq!(
        LintRule::DuplicateBullets {
            duplicates: vec![("Values".to_string(), "- Honest.".to_string())]
        }
        .message(),
        "duplicate-bullets: duplicate bullets within section(s):\n  [Values] - Honest.\n"
    );
}

#[test]
fn messages_name_their_rule() {
    let rules = vec![
        (LintRule::LineCount { actual: 1, cap: 0 }, "line-count:"),
        (LintRule::SectionMismatch { expected: Vec::new(), got: Vec::new() }, "section-mismatch:"),
        (LintRule::EmptyAspirations, "empty-aspirations:"),
        (LintRule::DuplicateBullets { duplicates: Vec::new() }, "duplicate-bullets:"),
    ];
    for (rule, id) in rules {
        assert!(rule.message().starts_with(id));
    }
}
