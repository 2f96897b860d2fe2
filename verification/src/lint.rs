//! The lint rules and the lint run.
use vstd::prelude::*;

use crate::text::{
    char_is_white_space, lemma_final_line_feed, lemma_line_count, chars_equal, is_white_space, lines_of, split_lines, string_from_chars,
    trim, trimmed_tail,
};

verus! {

/// Lint cap on total lines.
pub const LINT_MAX_LINES: usize = 200;

/// The seven canonical section headers, in canonical order.
pub open spec fn canonical_sections_spec() -> Seq<Seq<char>> {
    seq![
        "Voice"@,
        "Values"@,
        "Defaults"@,
        "Things I keep getting wrong"@,
        "Aspirations"@,
        "Boundaries"@,
        "Changelog"@,
    ]
}

/// The title of the section whose bullets must not all be empty.
pub open spec fn aspirations_title() -> Seq<char> {
    "Aspirations"@
}

/// A header line starts with `## `.
pub open spec fn is_header(line: Seq<char>) -> bool {
    seq!['#', '#', ' '].is_prefix_of(line)
}

/// The name a header line gives its section: the rest after `## `, trimmed.
pub open spec fn header_name(line: Seq<char>) -> Seq<char> {
    trim(line.skip(3))
}

/// A bullet line starts with `- `.
pub open spec fn is_bullet(line: Seq<char>) -> bool {
    seq!['-', ' '].is_prefix_of(line)
}

/// A bullet whose text starts with a character that is not white space.
pub open spec fn is_filled_bullet(line: Seq<char>) -> bool {
    is_bullet(line) && line.len() > 2 && !is_white_space(line[2])
}

/// The names of the header lines among the first `n` lines, in order.
pub open spec fn section_headers(lines: Seq<Seq<char>>, n: int) -> Seq<Seq<char>>
    decreases n,
{
    if n <= 0 {
        Seq::empty()
    } else if is_header(lines[n - 1]) {
        section_headers(lines, n - 1).push(header_name(lines[n - 1]))
    } else {
        section_headers(lines, n - 1)
    }
}

/// The index of the last header line before line `i`, or -1 where none is.
pub open spec fn last_header_before(lines: Seq<Seq<char>>, i: int) -> int
    decreases i,
{
    if i <= 0 {
        -1
    } else if is_header(lines[i - 1]) {
        i - 1
    } else {
        last_header_before(lines, i - 1)
    }
}

/// The name of the section that line `i` stands in; empty before any header.
pub open spec fn section_of(lines: Seq<Seq<char>>, i: int) -> Seq<char> {
    let h = last_header_before(lines, i);
    if h < 0 {
        Seq::empty()
    } else {
        header_name(lines[h])
    }
}

/// Line `i` stands in a section named Aspirations.
pub open spec fn in_aspirations(lines: Seq<Seq<char>>, i: int) -> bool {
    let h = last_header_before(lines, i);
    h >= 0 && header_name(lines[h]) == aspirations_title()
}

/// Line `i` is a filled bullet of an Aspirations section.
pub open spec fn is_aspiration(lines: Seq<Seq<char>>, i: int) -> bool {
    in_aspirations(lines, i) && is_filled_bullet(lines[i])
}

/// The number of aspirations among the first `n` lines.
pub open spec fn aspiration_count(lines: Seq<Seq<char>>, n: int) -> nat
    decreases n,
{
    if n <= 0 {
        0
    } else {
        aspiration_count(lines, n - 1) + if is_aspiration(lines, n - 1) {
            1nat
        } else {
            0nat
        }
    }
}

/// Line `i` is a bullet that an earlier line of its section already holds.
pub open spec fn repeats_bullet(lines: Seq<Seq<char>>, i: int) -> bool {
    &&& is_bullet(lines[i])
    &&& exists|k: int| last_header_before(lines, i) < k < i && #[trigger] lines[k] == lines[i]
}

/// The repeated bullets among the first `n` lines, in order, each with the
/// name of its section.
pub open spec fn duplicate_bullets(lines: Seq<Seq<char>>, n: int) -> Seq<(Seq<char>, Seq<char>)>
    decreases n,
{
    if n <= 0 {
        Seq::empty()
    } else if repeats_bullet(lines, n - 1) {
        duplicate_bullets(lines, n - 1).push((section_of(lines, n - 1), lines[n - 1]))
    } else {
        duplicate_bullets(lines, n - 1)
    }
}

/// What a rule violation says, over mathematical values.
pub enum RuleView {
    LineCount { actual: nat, cap: nat },
    SectionMismatch { expected: Seq<Seq<char>>, got: Seq<Seq<char>> },
    EmptyAspirations,
    DuplicateBullets { duplicates: Seq<(Seq<char>, Seq<char>)> },
}

/// What a lint report says, over mathematical values.
pub struct ReportView {
    pub line_count: nat,
    pub violations: Seq<RuleView>,
}

/// The violations of the four rules by `lines`, in rule order.
pub open spec fn rule_violations(lines: Seq<Seq<char>>) -> Seq<RuleView> {
    let n = lines.len() as int;
    let too_long: Seq<RuleView> = if lines.len() > LINT_MAX_LINES {
        seq![RuleView::LineCount { actual: lines.len(), cap: LINT_MAX_LINES as nat }]
    } else {
        Seq::empty()
    };
    let headers = section_headers(lines, n);
    let mismatch: Seq<RuleView> = if headers != canonical_sections_spec() {
        seq![RuleView::SectionMismatch { expected: canonical_sections_spec(), got: headers }]
    } else {
        Seq::empty()
    };
    let empty: Seq<RuleView> = if aspiration_count(lines, n) < 1 {
        seq![RuleView::EmptyAspirations]
    } else {
        Seq::empty()
    };
    let dupes = duplicate_bullets(lines, n);
    let repeated: Seq<RuleView> = if dupes.len() > 0 {
        seq![RuleView::DuplicateBullets { duplicates: dupes }]
    } else {
        Seq::empty()
    };
    too_long + mismatch + empty + repeated
}

/// The report that linting `text` gives.
pub open spec fn lint_spec(text: Seq<char>) -> ReportView {
    let lines = lines_of(text);
    ReportView { line_count: lines.len(), violations: rule_violations(lines) }
}

/// Lint rule identifiers; surfaced in diagnostics so failures name the rule.
#[derive(Debug, Clone, PartialEq, Eq)]
pub enum LintRule {
    /// File exceeded `LINT_MAX_LINES` total lines.
    LineCount {
        /// Observed total line count.
        actual: usize,
        /// Configured cap (= `LINT_MAX_LINES`).
        cap: usize,
    },
    /// Section headers did not match the canonical sections exactly, in order.
    SectionMismatch {
        /// The canonical section list the file must match.
        expected: Vec<String>,
        /// The section headers extracted from the file, in document order.
        got: Vec<String>,
    },
    /// Aspirations section had zero non-empty bullets (must be >=1).
    EmptyAspirations,
    /// One or more sections had duplicate bullet text.
    DuplicateBullets {
        /// `(section_name, bullet_text)` pairs for each duplicate.
        duplicates: Vec<(String, String)>,
    },
}

impl View for LintRule {
    type V = RuleView;

    open spec fn view(&self) -> RuleView {
        match self {
            LintRule::LineCount { actual, cap } => RuleView::LineCount {
                actual: *actual as nat,
                cap: *cap as nat,
            },
            LintRule::SectionMismatch { expected, got } => RuleView::SectionMismatch {
                expected: expected.deep_view(),
                got: got.deep_view(),
            },
            LintRule::EmptyAspirations => RuleView::EmptyAspirations,
            LintRule::DuplicateBullets { duplicates } => RuleView::DuplicateBullets {
                duplicates: duplicates.deep_view(),
            },
        }
    }
}

/// Outcome of a lint run.
#[derive(Debug, Clone)]
pub struct LintReport {
    /// Total line count of the input.
    pub line_count: usize,
    /// All rule violations; empty means the lint passed.
    pub violations: Vec<LintRule>,
}

impl View for LintReport {
    type V = ReportView;

    open spec fn view(&self) -> ReportView {
        ReportView {
            line_count: self.line_count as nat,
            violations: self.violations@.map_values(|r: LintRule| r@),
        }
    }
}

impl LintReport {
    /// True when the report has no rule violations.
    pub fn passed(&self) -> (ok: bool)
        ensures
            ok == (self@.violations.len() == 0),
    {
        self.violations.len() == 0
    }
}

/// Some Aspirations bullet among the first `n` lines is filled exactly when
/// their aspiration count is at least one.
proof fn lemma_aspiration_count_positive(lines: Seq<Seq<char>>, n: int)
    requires
        0 <= n <= lines.len(),
    ensures
        aspiration_count(lines, n) >= 1 <==> exists|i: int|
            0 <= i < n && #[trigger] is_aspiration(lines, i),
    decreases n,
{
    if n > 0 {
        lemma_aspiration_count_positive(lines, n - 1);
        if exists|i: int| 0 <= i < n && #[trigger] is_aspiration(lines, i) {
            let i = choose|i: int| 0 <= i < n && #[trigger] is_aspiration(lines, i);
            if i < n - 1 {
                assert(is_aspiration(lines, i));
            }
        }
    }
}

/// No bullet among the first `n` lines repeats an earlier one of its
/// section exactly when none is listed as a duplicate.
proof fn lemma_no_duplicates(lines: Seq<Seq<char>>, n: int)
    requires
        0 <= n <= lines.len(),
    ensures
        duplicate_bullets(lines, n).len() == 0 <==> forall|i: int|
            0 <= i < n ==> !#[trigger] repeats_bullet(lines, i),
    decreases n,
{
    if n > 0 {
        lemma_no_duplicates(lines, n - 1);
        if duplicate_bullets(lines, n).len() == 0 {
            assert forall|i: int| 0 <= i < n implies !#[trigger] repeats_bullet(lines, i) by {
                if i < n - 1 {
                    assert(!repeats_bullet(lines, i));
                }
            }
        }
    }
}

/// Linting passes exactly when the four rules hold: at most
/// `LINT_MAX_LINES` lines; the section headers are the canonical ones, in
/// canonical order; some Aspirations section holds a bullet whose text starts
/// with a character that is not white space; and no bullet line repeats an
/// earlier bullet line of the same section.
pub proof fn lemma_passes_iff_rules_hold(text: Seq<char>)
    ensures
        ({
            let lines = lines_of(text);
            lint_spec(text).violations.len() == 0 <==> {
                &&& lines.len() <= LINT_MAX_LINES
                &&& section_headers(lines, lines.len() as int) == canonical_sections_spec()
                &&& exists|i: int| 0 <= i < lines.len() && #[trigger] is_aspiration(lines, i)
                &&& forall|i: int, k: int|
                    0 <= k < i < lines.len() && last_header_before(lines, i) < k && is_bullet(
                        lines[i],
                    ) ==> #[trigger] lines[k] != #[trigger] lines[i]
            }
        }),
{
    let lines = lines_of(text);
    let n = lines.len() as int;
    lemma_aspiration_count_positive(lines, n);
    lemma_no_duplicates(lines, n);
    if forall|i: int, k: int|
        0 <= k < i < lines.len() && last_header_before(lines, i) < k && is_bullet(lines[i])
            ==> #[trigger] lines[k] != #[trigger] lines[i] {
        assert forall|i: int| 0 <= i < n implies !#[trigger] repeats_bullet(lines, i) by {
            if repeats_bullet(lines, i) {
                let k = choose|k: int| last_header_before(lines, i) < k < i && #[trigger] lines[k]
                    == lines[i];
                lemma_last_header_bounds(lines, i);
            }
        }
    }
    if forall|i: int| 0 <= i < n ==> !#[trigger] repeats_bullet(lines, i) {
        assert forall|i: int, k: int|
            0 <= k < i < lines.len() && last_header_before(lines, i) < k && is_bullet(
                lines[i],
            ) implies #[trigger] lines[k] != #[trigger] lines[i] by {
            assert(!repeats_bullet(lines, i));
        }
    }
}

/// `last_header_before` is the nearest header line before line `i`: a
/// header, with no header line between it and line `i`.
proof fn lemma_last_header(lines: Seq<Seq<char>>, i: int)
    requires
        0 <= i <= lines.len(),
    ensures
        -1 <= last_header_before(lines, i) < i || (i == 0 && last_header_before(lines, i) == -1),
        last_header_before(lines, i) >= 0 ==> is_header(lines[last_header_before(lines, i)]),
        forall|j: int| last_header_before(lines, i) < j < i ==> !is_header(#[trigger] lines[j]),
    decreases i,
{
    if i > 0 {
        lemma_last_header(lines, i - 1);
    }
}

/// A line can't be both a `## ` header and a `- ` bullet.
proof fn lemma_header_not_bullet(line: Seq<char>)
    requires
        seq!['#', '#', ' '].is_prefix_of(line),
    ensures
        !seq!['-', ' '].is_prefix_of(line),
{
    assert(line[0] == line.subrange(0, 3)[0]);
    if seq!['-', ' '].is_prefix_of(line) {
        assert(line[0] == line.subrange(0, 2)[0]);
    }
}

/// The section headers of the first `i + 1` lines are those of the first
/// `i` lines, followed, when line `i` starts with `#`, `#`, space, by the
/// rest of that line after those three characters with white space trimmed
/// at both ends. No other line names a section, and there are none before
/// the first line.
pub proof fn lemma_section_headers_step(lines: Seq<Seq<char>>, i: int)
    requires
        0 <= i < lines.len(),
    ensures
        section_headers(lines, 0) == Seq::<Seq<char>>::empty(),
        section_headers(lines, i + 1) == if seq!['#', '#', ' '].is_prefix_of(lines[i]) {
            section_headers(lines, i).push(trim(lines[i].skip(3)))
        } else {
            section_headers(lines, i)
        },
{
}

/// Whether line `i` is counted as an aspiration depends on line `i` and the
/// lines before it exactly so: it starts with `-`, space, and a character
/// that is not white space, and the nearest earlier line that starts with
/// `#`, `#`, space names, once trimmed, `Aspirations`. Lines of any other
/// kind in between, blank ones included, don't end the section. Nothing is
/// counted before the first line.
pub proof fn lemma_aspiration_count_step(lines: Seq<Seq<char>>, i: int)
    requires
        0 <= i < lines.len(),
    ensures
        aspiration_count(lines, 0) == 0,
        aspiration_count(lines, i + 1) == aspiration_count(lines, i) + if {
            &&& seq!['-', ' '].is_prefix_of(lines[i])
            &&& lines[i].len() > 2
            &&& !is_white_space(lines[i][2])
            &&& exists|h: int|
                0 <= h < i && seq!['#', '#', ' '].is_prefix_of(#[trigger] lines[h]) && trim(
                    lines[h].skip(3),
                ) == "Aspirations"@ && forall|j: int|
                    h < j < i ==> !seq!['#', '#', ' '].is_prefix_of(#[trigger] lines[j])
        } {
            1int
        } else {
            0int
        },
{
    lemma_last_header(lines, i);
    let h0 = last_header_before(lines, i);
    let hdr = |l: Seq<char>| seq!['#', '#', ' '].is_prefix_of(l);
    if exists|h: int|
        0 <= h < i && seq!['#', '#', ' '].is_prefix_of(#[trigger] lines[h]) && trim(
            lines[h].skip(3),
        ) == "Aspirations"@ && forall|j: int|
            h < j < i ==> !seq!['#', '#', ' '].is_prefix_of(#[trigger] lines[j]) {
        let h = choose|h: int|
            0 <= h < i && seq!['#', '#', ' '].is_prefix_of(#[trigger] lines[h]) && trim(
                lines[h].skip(3),
            ) == "Aspirations"@ && forall|j: int|
                h < j < i ==> !seq!['#', '#', ' '].is_prefix_of(#[trigger] lines[j]);
        if h < h0 {
            assert(!seq!['#', '#', ' '].is_prefix_of(lines[h0]));
        }
        if h > h0 {
            assert(!is_header(lines[h]));
        }
        assert(h == h0);
        assert(in_aspirations(lines, i));
    }
    if in_aspirations(lines, i) {
        assert(seq!['#', '#', ' '].is_prefix_of(lines[h0]));
        assert(forall|j: int| h0 < j < i ==> !seq!['#', '#', ' '].is_prefix_of(#[trigger] lines[j]));
    }
}

/// A bullet is reported as repeated exactly when line `i` starts with `-`,
/// space, and an earlier line equals it with no line starting with `#`, `#`,
/// space between the two. The report then gains one entry at its end: line
/// `i`, with the trimmed name of the nearest earlier header, or an empty name
/// where no header stands before it. Otherwise the list of repeats stays as
/// it is. Nothing is reported before the first line.
pub proof fn lemma_duplicate_bullets_step(lines: Seq<Seq<char>>, i: int)
    requires
        0 <= i < lines.len(),
    ensures
        duplicate_bullets(lines, 0).len() == 0,
        ({
            let before = duplicate_bullets(lines, i);
            let after = duplicate_bullets(lines, i + 1);
            let repeated = seq!['-', ' '].is_prefix_of(lines[i]) && exists|k: int|
                0 <= k < i && #[trigger] lines[k] == lines[i] && forall|j: int|
                    k < j < i ==> !seq!['#', '#', ' '].is_prefix_of(#[trigger] lines[j]);
            &&& !repeated ==> after == before
            &&& repeated ==> after.len() == before.len() + 1 && after.take(before.len() as int)
                == before && after.last().1 == lines[i]
            &&& repeated ==> forall|h: int|
                0 <= h < i && seq!['#', '#', ' '].is_prefix_of(#[trigger] lines[h]) && (forall|
                    j: int,
                | h < j < i ==> !seq!['#', '#', ' '].is_prefix_of(#[trigger] lines[j]))
                    ==> after.last().0 == trim(lines[h].skip(3))
            &&& repeated ==> (forall|h: int|
                0 <= h < i ==> !seq!['#', '#', ' '].is_prefix_of(#[trigger] lines[h]))
                ==> after.last().0 == Seq::<char>::empty()
        }),
{
    lemma_last_header(lines, i);
    let h0 = last_header_before(lines, i);
    let before = duplicate_bullets(lines, i);
    let after = duplicate_bullets(lines, i + 1);
    let repeated = seq!['-', ' '].is_prefix_of(lines[i]) && exists|k: int|
        0 <= k < i && #[trigger] lines[k] == lines[i] && forall|j: int|
            k < j < i ==> !seq!['#', '#', ' '].is_prefix_of(#[trigger] lines[j]);
    if repeated {
        let k = choose|k: int|
            0 <= k < i && #[trigger] lines[k] == lines[i] && forall|j: int|
                k < j < i ==> !seq!['#', '#', ' '].is_prefix_of(#[trigger] lines[j]);
        if k < h0 {
            assert(!seq!['#', '#', ' '].is_prefix_of(lines[h0]));
        }
        if k == h0 {
            lemma_header_not_bullet(lines[k]);
        }
        assert(h0 < k);
        assert(repeats_bullet(lines, i));
        assert(after.take(before.len() as int) =~= before);
        assert forall|h: int|
            0 <= h < i && seq!['#', '#', ' '].is_prefix_of(#[trigger] lines[h]) && (forall|j: int|
                h < j < i ==> !seq!['#', '#', ' '].is_prefix_of(#[trigger] lines[j]))
            implies after.last().0 == trim(lines[h].skip(3)) by {
            if h < h0 {
                assert(!seq!['#', '#', ' '].is_prefix_of(lines[h0]));
            }
            if h > h0 {
                assert(!is_header(lines[h]));
            }
        }
        if forall|h: int| 0 <= h < i ==> !seq!['#', '#', ' '].is_prefix_of(#[trigger] lines[h]) {
            if h0 >= 0 {
                assert(!seq!['#', '#', ' '].is_prefix_of(lines[h0]));
            }
        }
    } else {
        if repeats_bullet(lines, i) {
            let k = choose|k: int| last_header_before(lines, i) < k < i && #[trigger] lines[k]
                == lines[i];
            assert(forall|j: int| k < j < i ==> !seq!['#', '#', ' '].is_prefix_of(#[trigger] lines[j]));
        }
    }
}

/// The position of a rule in report order.
pub open spec fn rule_rank(r: RuleView) -> int {
    match r {
        RuleView::LineCount { .. } => 0,
        RuleView::SectionMismatch { .. } => 1,
        RuleView::EmptyAspirations => 2,
        RuleView::DuplicateBullets { .. } => 3,
    }
}

/// A report names each rule at most once, in the order line count, section
/// headers, Aspirations, duplicates; a line-count violation carries the
/// number of lines and the cap, which it exceeds; a section mismatch carries
/// the seven canonical names and the differing header names found; a
/// duplicate violation carries a non-empty list of the repeated bullets.
pub proof fn lemma_violations_described(text: Seq<char>)
    ensures
        ({
            let lines = lines_of(text);
            let n = lines.len() as int;
            let v = lint_spec(text).violations;
            &&& v.len() <= 4
            &&& forall|a: int, b: int|
                0 <= a < b < v.len() ==> rule_rank(#[trigger] v[a]) < rule_rank(#[trigger] v[b])
            &&& forall|a: int|
                0 <= a < v.len() ==> match #[trigger] v[a] {
                    RuleView::LineCount { actual, cap } => actual == lines.len() && cap == 200
                        && actual > cap,
                    RuleView::SectionMismatch { expected, got } => expected == seq![
                        "Voice"@,
                        "Values"@,
                        "Defaults"@,
                        "Things I keep getting wrong"@,
                        "Aspirations"@,
                        "Boundaries"@,
                        "Changelog"@,
                    ] && got == section_headers(lines, n) && got != expected,
                    RuleView::EmptyAspirations => aspiration_count(lines, n) == 0,
                    RuleView::DuplicateBullets { duplicates } => duplicates
                        == duplicate_bullets(lines, n) && duplicates.len() > 0,
                }
        }),
{
}

/// A report counts every line of the file, blank ones included: one per
/// line feed, and one more for a non-empty last line without a line feed.
pub proof fn lemma_report_line_count(text: Seq<char>)
    ensures
        lint_spec(text).line_count == text.filter(|c: char| c == '\n').len() + if text.len() > 0
            && text.last() != '\n' {
            1int
        } else {
            0int
        },
{
    lemma_line_count(text);
}

/// A line feed added at the end of a non-empty file that ends neither with a
/// line feed nor with a carriage return changes nothing in its lint report.
pub proof fn lemma_final_line_feed_same_report(text: Seq<char>)
    requires
        text.len() > 0,
        text.last() != '\n',
        text.last() != '\r',
    ensures
        lint_spec(text.push('\n')) == lint_spec(text),
{
    lemma_final_line_feed(text);
}

/// The last header before line `i` stands before it.
proof fn lemma_last_header_bounds(lines: Seq<Seq<char>>, i: int)
    ensures
        -1 <= last_header_before(lines, i),
        i > 0 ==> last_header_before(lines, i) < i,
    decreases i,
{
    if i > 0 {
        lemma_last_header_bounds(lines, i - 1);
    }
}

/// Rows of a vector of character vectors, read through its deep view.
proof fn lemma_rows(v: &Vec<Vec<char>>)
    ensures
        v.deep_view().len() == v.len(),
        forall|i: int| 0 <= i < v.len() ==> #[trigger] v.deep_view()[i] == v@[i]@,
{
    assert forall|i: int| 0 <= i < v.len() implies #[trigger] v.deep_view()[i] == v@[i]@ by {
        assert(v.deep_view()[i] =~= v@[i]@);
    }
}

/// Decides `is_header`.
fn starts_with_header(line: &Vec<char>) -> (b: bool)
    ensures
        b == is_header(line@),
{
    let b = line.len() >= 3 && line[0] == '#' && line[1] == '#' && line[2] == ' ';
    proof {
        let m = seq!['#', '#', ' '];
        if b {
            assert(line@.subrange(0, 3) =~= m);
        }
        if m.is_prefix_of(line@) {
            assert(line@[0] == line@.subrange(0, 3)[0]);
            assert(line@[1] == line@.subrange(0, 3)[1]);
            assert(line@[2] == line@.subrange(0, 3)[2]);
        }
    }
    b
}

/// Decides `is_bullet`.
fn starts_with_bullet(line: &Vec<char>) -> (b: bool)
    ensures
        b == is_bullet(line@),
{
    let b = line.len() >= 2 && line[0] == '-' && line[1] == ' ';
    proof {
        let m = seq!['-', ' '];
        if b {
            assert(line@.subrange(0, 2) =~= m);
        }
        if m.is_prefix_of(line@) {
            assert(line@[0] == line@.subrange(0, 2)[0]);
            assert(line@[1] == line@.subrange(0, 2)[1]);
        }
    }
    b
}

/// Whether `name` is the title of the Aspirations section.
fn is_aspirations_title(name: &Vec<char>) -> (b: bool)
    ensures
        b == (name@ == aspirations_title()),
{
    let s = string_from_chars(name);
    let t = "Aspirations".to_owned();
    s == t
}

/// Counts the bullets of Aspirations sections whose text starts with a
/// character that is not white space.
pub fn aspirations_bullet_count(lines: &Vec<Vec<char>>) -> (n: usize)
    ensures
        n == aspiration_count(lines.deep_view(), lines.len() as int),
{
    let ghost lv = lines.deep_view();
    proof {
        lemma_rows(lines);
    }
    let mut in_sec = false;
    let mut n: usize = 0;
    for i in 0..lines.len()
        invariant
            lv == lines.deep_view(),
            lv.len() == lines.len(),
            forall|j: int| 0 <= j < lines.len() ==> #[trigger] lv[j] == lines@[j]@,
            n == aspiration_count(lv, i as int),
            n <= i,
            in_sec == in_aspirations(lv, i as int),
    {
        let line = &lines[i];
        if starts_with_header(line) {
            assert(line@[0] == '#') by {
                assert(line@[0] == line@.subrange(0, 3)[0]);
            }
            assert(!is_bullet(line@)) by {
                if is_bullet(line@) {
                    assert(line@[0] == line@.subrange(0, 2)[0]);
                }
            }
            let name = trimmed_tail(line, 3);
            in_sec = is_aspirations_title(&name);
        } else if in_sec && starts_with_bullet(line) && line.len() > 2 && !char_is_white_space(
            line[2],
        ) {
            n = n + 1;
        }
    }
    n
}

/// The canonical section names, in canonical order.
pub fn canonical_sections() -> (v: Vec<String>)
    ensures
        v.deep_view() == canonical_sections_spec(),
{
    let mut v: Vec<String> = Vec::new();
    v.push("Voice".to_owned());
    v.push("Values".to_owned());
    v.push("Defaults".to_owned());
    v.push("Things I keep getting wrong".to_owned());
    v.push("Aspirations".to_owned());
    v.push("Boundaries".to_owned());
    v.push("Changelog".to_owned());
    assert(v.deep_view() =~= canonical_sections_spec());
    v
}

/// Whether two vectors of strings hold the same strings in the same order.
fn strings_equal(a: &Vec<String>, b: &Vec<String>) -> (same: bool)
    ensures
        same == (a.deep_view() == b.deep_view()),
{
    if a.len() != b.len() {
        assert(a.deep_view().len() != b.deep_view().len());
        return false;
    }
    for i in 0..a.len()
        invariant
            a.len() == b.len(),
            forall|j: int| 0 <= j < i ==> a@[j]@ == b@[j]@,
    {
        if a[i] != b[i] {
            assert(a.deep_view()[i as int] != b.deep_view()[i as int]);
            return false;
        }
    }
    assert(a.deep_view() =~= b.deep_view());
    true
}

/// The names of the section headers of `lines`, in document order.
fn collect_section_headers(lines: &Vec<Vec<char>>) -> (got: Vec<String>)
    ensures
        got.deep_view() == section_headers(lines.deep_view(), lines.len() as int),
{
    let ghost lv = lines.deep_view();
    proof {
        lemma_rows(lines);
    }
    let mut got: Vec<String> = Vec::new();
    for i in 0..lines.len()
        invariant
            lv == lines.deep_view(),
            lv.len() == lines.len(),
            forall|j: int| 0 <= j < lines.len() ==> #[trigger] lv[j] == lines@[j]@,
            got.deep_view() == section_headers(lv, i as int),
    {
        let line = &lines[i];
        if starts_with_header(line) {
            let name = trimmed_tail(line, 3);
            let ghost before = got.deep_view();
            got.push(string_from_chars(&name));
            assert(got.deep_view() =~= before.push(header_name(lv[i as int])));
        }
    }
    got
}

/// Whether some line whose index `seen` holds equals `line`.
fn seen_contains(lines: &Vec<Vec<char>>, seen: &Vec<usize>, line: &Vec<char>) -> (found: bool)
    requires
        forall|j: int| 0 <= j < seen.len() ==> #[trigger] seen@[j] < lines.len(),
    ensures
        found == exists|j: int|
            0 <= j < seen.len() && #[trigger] lines@[seen@[j] as int]@ == line@,
{
    for j in 0..seen.len()
        invariant
            forall|q: int| 0 <= q < seen.len() ==> #[trigger] seen@[q] < lines.len(),
            forall|q: int| 0 <= q < j ==> #[trigger] lines@[seen@[q] as int]@ != line@,
    {
        if chars_equal(&lines[seen[j]], line) {
            return true;
        }
    }
    false
}

/// The indices in `seen` lie in the block of lines `h + 1 .. i`, and every
/// bullet of that block equals the line at one of them.
#[verifier::opaque]
spec fn seen_covers_block(lv: Seq<Seq<char>>, seen: Seq<usize>, h: int, i: int) -> bool {
    &&& forall|q: int| 0 <= q < seen.len() ==> h < #[trigger] seen[q] < i
    &&& forall|k: int|
        h < k < i && is_bullet(#[trigger] lv[k]) ==> exists|q: int|
            0 <= q < seen.len() && lv[seen[q] as int] == lv[k]
}

proof fn lemma_cover_empty(lv: Seq<Seq<char>>, i: int)
    ensures
        seen_covers_block(lv, Seq::empty(), i, i + 1),
{
    reveal(seen_covers_block);
}

proof fn lemma_cover_extend(lv: Seq<Seq<char>>, seen: Seq<usize>, h: int, i: int)
    requires
        seen_covers_block(lv, seen, h, i),
        h < i,
        !is_bullet(lv[i]) || exists|q: int| 0 <= q < seen.len() && lv[seen[q] as int] == lv[i],
    ensures
        seen_covers_block(lv, seen, h, i + 1),
{
    reveal(seen_covers_block);
}

proof fn lemma_cover_push(lv: Seq<Seq<char>>, seen: Seq<usize>, h: int, i: int)
    requires
        seen_covers_block(lv, seen, h, i),
        h < i,
        0 <= i <= usize::MAX,
    ensures
        seen_covers_block(lv, seen.push(i as usize), h, i + 1),
{
    reveal(seen_covers_block);
    let s2 = seen.push(i as usize);
    assert forall|k: int| h < k < i + 1 && is_bullet(#[trigger] lv[k]) implies exists|q: int|
        0 <= q < s2.len() && lv[s2[q] as int] == lv[k] by {
        if k == i {
            assert(s2[seen.len() as int] == i);
        } else {
            let q = choose|q: int| 0 <= q < seen.len() && lv[seen[q] as int] == lv[k];
            assert(s2[q] == seen[q]);
        }
    }
}

proof fn lemma_cover_bounds(lv: Seq<Seq<char>>, seen: Seq<usize>, h: int, i: int)
    requires
        seen_covers_block(lv, seen, h, i),
    ensures
        forall|q: int| 0 <= q < seen.len() ==> #[trigger] seen[q] < i,
{
    reveal(seen_covers_block);
}

proof fn lemma_cover_found(lv: Seq<Seq<char>>, seen: Seq<usize>, h: int, i: int)
    requires
        seen_covers_block(lv, seen, h, i),
        is_bullet(lv[i]),
    ensures
        (exists|q: int| 0 <= q < seen.len() && lv[seen[q] as int] == lv[i]) <==> (exists|k: int|
            h < k < i && #[trigger] lv[k] == lv[i]),
{
    reveal(seen_covers_block);
    if exists|q: int| 0 <= q < seen.len() && lv[seen[q] as int] == lv[i] {
        let q = choose|q: int| 0 <= q < seen.len() && lv[seen[q] as int] == lv[i];
        assert(h < seen[q] < i);
        assert(lv[seen[q] as int] == lv[i]);
    }
    if exists|k: int| h < k < i && #[trigger] lv[k] == lv[i] {
        let k = choose|k: int| h < k < i && #[trigger] lv[k] == lv[i];
        assert(is_bullet(lv[k]));
    }
}

/// Lists each bullet that repeats an earlier bullet of the same section,
/// with the name of that section, in document order.
pub fn find_duplicate_bullets(lines: &Vec<Vec<char>>) -> (dupes: Vec<(String, String)>)
    ensures
        dupes.deep_view() == duplicate_bullets(lines.deep_view(), lines.len() as int),
{
    let ghost lv = lines.deep_view();
    proof {
        lemma_rows(lines);
        lemma_cover_empty(lv, -1);
    }
    let mut dupes: Vec<(String, String)> = Vec::new();
    let mut current_section: Vec<char> = Vec::new();
    let mut seen: Vec<usize> = Vec::new();
    for i in 0..lines.len()
        invariant
            lv == lines.deep_view(),
            lv.len() == lines.len(),
            forall|j: int| 0 <= j < lines.len() ==> #[trigger] lv[j] == lines@[j]@,
            dupes.deep_view() == duplicate_bullets(lv, i as int),
            current_section@ == section_of(lv, i as int),
            seen_covers_block(lv, seen@, last_header_before(lv, i as int), i as int),
            -1 <= last_header_before(lv, i as int) < i,
    {
        let ghost h = last_header_before(lv, i as int);
        let line = &lines[i];
        if starts_with_header(line) {
            current_section = trimmed_tail(line, 3);
            seen = Vec::new();
            proof {
                lemma_cover_empty(lv, i as int);
            }
        } else if starts_with_bullet(line) {
            proof {
                lemma_cover_bounds(lv, seen@, h, i as int);
            }
            let found = seen_contains(lines, &seen, line);
            proof {
                lemma_cover_found(lv, seen@, h, i as int);
                if found {
                    let q = choose|q: int|
                        0 <= q < seen.len() && #[trigger] lines@[seen@[q] as int]@ == line@;
                    assert(lv[seen@[q] as int] == lv[i as int]);
                } else {
                    assert forall|q: int| 0 <= q < seen.len() implies lv[seen@[q] as int]
                        != lv[i as int] by {
                        assert(lines@[seen@[q] as int]@ != line@);
                    }
                }
            }
            if found {
                let ghost before = dupes.deep_view();
                let entry = (string_from_chars(&current_section), string_from_chars(line));
                dupes.push(entry);
                assert(dupes.deep_view() =~= before.push(
                    (section_of(lv, i as int), lv[i as int]),
                ));
                proof {
                    lemma_cover_extend(lv, seen@, h, i as int);
                }
            } else {
                proof {
                    lemma_cover_push(lv, seen@, h, i as int);
                }
                seen.push(i);
            }
        } else {
            proof {
                lemma_cover_extend(lv, seen@, h, i as int);
            }
        }
    }
    dupes
}

/// Lint a file's contents against the four rules: at most `LINT_MAX_LINES`
/// lines, exactly the canonical section headers in order, at least one
/// filled bullet under Aspirations, and no bullet repeated within a section.
///
/// Returns a `LintReport` listing every rule violation (or none on pass).
pub fn lint_contents(contents: &str) -> (report: LintReport)
    ensures
        report@ == lint_spec(contents@),
        report.line_count == contents@.filter(|c: char| c == '\n').len() + if contents@.len() > 0
            && contents@.last() != '\n' {
            1int
        } else {
            0int
        },
{
    let lines = split_lines(contents);
    let line_count = lines.len();
    let ghost lv = lines.deep_view();
    let ghost n = line_count as int;
    let mut violations: Vec<LintRule> = Vec::new();

    if line_count > LINT_MAX_LINES {
        violations.push(LintRule::LineCount { actual: line_count, cap: LINT_MAX_LINES });
    }
    let ghost after_count = violations@.map_values(|r: LintRule| r@);

    let got_sections = collect_section_headers(&lines);
    let expected_sections = canonical_sections();
    if !strings_equal(&got_sections, &expected_sections) {
        violations.push(
            LintRule::SectionMismatch { expected: expected_sections, got: got_sections },
        );
    }
    let ghost after_sections = violations@.map_values(|r: LintRule| r@);

    if aspirations_bullet_count(&lines) < 1 {
        violations.push(LintRule::EmptyAspirations);
    }
    let ghost after_aspirations = violations@.map_values(|r: LintRule| r@);

    let dupes = find_duplicate_bullets(&lines);
    if dupes.len() > 0 {
        violations.push(LintRule::DuplicateBullets { duplicates: dupes });
    }
    let report = LintReport { line_count, violations };
    assert(report@.violations =~= rule_violations(lv));
    proof {
        lemma_report_line_count(contents@);
    }
    report
}

} // verus!
