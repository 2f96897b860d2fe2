//! Checks the structure of a self-description file: the canonical section
//! headers, a cap on its length, a non-empty Aspirations section, and no
//! bullet repeated within a section.
pub mod lint;
pub mod message;
pub mod text;

pub use lint::{
    aspirations_bullet_count, canonical_sections, find_duplicate_bullets, lint_contents,
    LintReport, LintRule, LINT_MAX_LINES,
};
pub use text::split_lines;
