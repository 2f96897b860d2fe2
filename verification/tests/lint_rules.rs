use claude_self::{lint_contents, LintRule};

const GOOD_FILE: &str = "\
# Header
## Voice
- Terse.
## Values
- Honest.
## Defaults
- Parallel tool calls.
## Things I keep getting wrong
- Over-narrating.
## Aspirations
- Be a collaborator.
## Boundaries
- No irreversible ops without approval.
## Changelog
- 2026-05-23 (assistant): seed.
";

#[test]
fn good_file_lints_clean() {
    let report = lint_contents(GOOD_FILE);
    assert!(report.passed(), "expected pass, got {:?}", report.violations);
}

#[test]
fn missing_section_fails() {
    let bad = GOOD_FILE.replace("## Boundaries\n- No irreversible ops without approval.\n", "");
    let report = lint_contents(&bad);
    assert!(!report.passed());
    assert!(
        report.violations.iter().any(|v| matches!(v, LintRule::SectionMismatch { .. })),
        "expected section-mismatch violation; got {:?}",
        report.violations
    );
}

#[test]
fn empty_aspirations_fails() {
    let bad = GOOD_FILE.replace("- Be a collaborator.\n", "");
    let report = lint_contents(&bad);
    assert!(report.violations.iter().any(|v| matches!(v, LintRule::EmptyAspirations)));
}

#[test]
fn duplicate_bullet_fails() {
    let bad = GOOD_FILE.replace("## Values\n- Honest.\n", "## Values\n- Honest.\n- Honest.\n");
    let report = lint_contents(&bad);
    assert!(
        report.violations.iter().any(|v| matches!(v, LintRule::DuplicateBullets { .. })),
        "expected duplicate-bullets violation; got {:?}",
        report.violations
    );
}

#[test]
fn over_long_fails() {
    let mut bad = String::from("# Header\n## Voice\n");
    for i in 0..210 {
        bad.push_str(&format!("- v{i}\n"));
    }
    bad.push_str("## Values\n- v\n## Defaults\n- d\n## Things I keep getting wrong\n- t\n");
    bad.push_str("## Aspirations\n- a\n## Boundaries\n- b\n## Changelog\n- c\n");
    let report = lint_contents(&bad);
    assert!(report.violations.iter().any(|v| matches!(v, LintRule::LineCount { .. })));
}
