//! The diagnostic text of a rule violation.
use vstd::prelude::*;

use crate::lint::{LintRule, RuleView};

verus! {

/// The decimal digit for `d < 10`.
pub open spec fn digit_char(d: nat) -> char {
    (48 + d) as char
}

/// The decimal notation of `n`, without leading zeros.
pub open spec fn decimal(n: nat) -> Seq<char>
    decreases n,
{
    if n < 10 {
        seq![digit_char(n)]
    } else {
        decimal(n / 10).push(digit_char(n % 10))
    }
}

/// One line `    <item>` per item.
pub open spec fn indented_items(items: Seq<Seq<char>>) -> Seq<char>
    decreases items.len(),
{
    if items.len() == 0 {
        Seq::empty()
    } else {
        indented_items(items.drop_last()) + "    "@ + items.last() + "\n"@
    }
}

/// One line `  [<section>] <bullet>` per pair.
pub open spec fn duplicate_items(items: Seq<(Seq<char>, Seq<char>)>) -> Seq<char>
    decreases items.len(),
{
    if items.len() == 0 {
        Seq::empty()
    } else {
        duplicate_items(items.drop_last()) + "  ["@ + items.last().0 + "] "@ + items.last().1
            + "\n"@
    }
}

/// The rule's identifier, the first word of its message.
pub open spec fn rule_id(r: RuleView) -> Seq<char> {
    match r {
        RuleView::LineCount { .. } => "line-count"@,
        RuleView::SectionMismatch { .. } => "section-mismatch"@,
        RuleView::EmptyAspirations => "empty-aspirations"@,
        RuleView::DuplicateBullets { .. } => "duplicate-bullets"@,
    }
}

/// The diagnostic text of a violation.
pub open spec fn message_spec(r: RuleView) -> Seq<char> {
    match r {
        RuleView::LineCount { actual, cap } => "line-count: "@ + decimal(actual)
            + " lines exceeds cap of "@ + decimal(cap),
        RuleView::SectionMismatch { expected, got } =>
            "section-mismatch: section headers do not match canonical set\n"@ + "  expected:\n"@
                + indented_items(expected) + "  got:\n"@ + indented_items(got),
        RuleView::EmptyAspirations =>
            "empty-aspirations: Aspirations section is empty (must have >=1 bullet)"@,
        RuleView::DuplicateBullets { duplicates } =>
            "duplicate-bullets: duplicate bullets within section(s):\n"@ + duplicate_items(
                duplicates,
            ),
    }
}

/// Each diagnostic starts with its rule's identifier and a colon.
pub proof fn lemma_message_names_rule(r: RuleView)
    ensures
        (rule_id(r) + ":"@).is_prefix_of(message_spec(r)),
{
    reveal_strlit(":");
    let head = match r {
        RuleView::LineCount { .. } => {
            reveal_strlit("line-count");
            reveal_strlit("line-count: ");
            "line-count: "@
        },
        RuleView::SectionMismatch { .. } => {
            reveal_strlit("section-mismatch");
            reveal_strlit("section-mismatch: section headers do not match canonical set\n");
            "section-mismatch: section headers do not match canonical set\n"@
        },
        RuleView::EmptyAspirations => {
            reveal_strlit("empty-aspirations");
            reveal_strlit("empty-aspirations: Aspirations section is empty (must have >=1 bullet)");
            "empty-aspirations: Aspirations section is empty (must have >=1 bullet)"@
        },
        RuleView::DuplicateBullets { .. } => {
            reveal_strlit("duplicate-bullets");
            reveal_strlit("duplicate-bullets: duplicate bullets within section(s):\n");
            "duplicate-bullets: duplicate bullets within section(s):\n"@
        },
    };
    let id = rule_id(r) + ":"@;
    assert(head.subrange(0, id.len() as int) =~= id);
    let m = message_spec(r);
    assert(m.subrange(0, head.len() as int) =~= head);
    assert(m.subrange(0, id.len() as int) =~= id);
}

/// The number that a string of decimal digits denotes.
pub open spec fn digits_value(s: Seq<char>) -> int
    decreases s.len(),
{
    if s.len() == 0 {
        0
    } else {
        digits_value(s.drop_last()) * 10 + (s.last() as int - 48)
    }
}

/// `decimal(n)` is a non-empty string of the digits `0` to `9` that denotes
/// `n` and starts with `0` only when `n` is 0.
pub proof fn lemma_decimal(n: nat)
    ensures
        decimal(n).len() >= 1,
        forall|j: int| 0 <= j < decimal(n).len() ==> '0' <= #[trigger] decimal(n)[j] <= '9',
        digits_value(decimal(n)) == n,
        decimal(n)[0] == '0' ==> n == 0,
    decreases n,
{
    if n >= 10 {
        lemma_decimal(n / 10);
        let d = decimal(n);
        assert(d.drop_last() =~= decimal(n / 10));
        assert(d[0] == decimal(n / 10)[0]);
        assert forall|j: int| 0 <= j < d.len() implies '0' <= #[trigger] d[j] <= '9' by {
            if j < d.len() - 1 {
                assert(d[j] == decimal(n / 10)[j]);
            }
        }
        assert(n == (n / 10) * 10 + n % 10);
        assert(d.last() as int == 48 + n % 10);
        assert(digits_value(d) == digits_value(d.drop_last()) * 10 + (n % 10));
        assert(digits_value(d) == (n / 10) * 10 + (n % 10));
    } else {
        assert(decimal(n).drop_last() =~= Seq::<char>::empty());
        assert(decimal(n).last() as int == 48 + n);
        assert(digits_value(decimal(n)) == digits_value(decimal(n).drop_last()) * 10 + n);
        assert(digits_value(Seq::<char>::empty()) == 0);
    }
}

/// Appends the decimal notation of `n` to `s`.
fn push_decimal(s: &mut String, n: usize)
    ensures
        final(s)@ == old(s)@ + decimal(n as nat),
    decreases n,
{
    if n >= 10 {
        push_decimal(s, n / 10);
    }
    let d: u8 = (n % 10) as u8;
    let c: char = (48u8 + d) as char;
    assert(c == digit_char((n % 10) as nat));
    s.push(c);
    proof {
        if n < 10 {
            assert(decimal(n as nat) =~= seq![digit_char(n as nat)]);
        }
    }
    assert(final(s)@ =~= old(s)@ + decimal(n as nat));
}

/// Appends one indented line per item of `items` to `s`.
fn push_indented_items(s: &mut String, items: &Vec<String>)
    ensures
        final(s)@ == old(s)@ + indented_items(items.deep_view()),
{
    let ghost start = s@;
    for i in 0..items.len()
        invariant
            s@ == start + indented_items(items.deep_view().take(i as int)),
    {
        let ghost before = s@;
        s.append("    ");
        s.append(items[i].as_str());
        s.append("\n");
        proof {
            let t = items.deep_view().take(i + 1);
            assert(t.drop_last() =~= items.deep_view().take(i as int));
            assert(t.last() == items@[i as int]@);
            assert(s@ =~= start + indented_items(t));
        }
    }
    assert(items.deep_view().take(items.len() as int) =~= items.deep_view());
}

/// Appends one line per duplicate pair of `items` to `s`.
fn push_duplicate_items(s: &mut String, items: &Vec<(String, String)>)
    ensures
        final(s)@ == old(s)@ + duplicate_items(items.deep_view()),
{
    let ghost start = s@;
    for i in 0..items.len()
        invariant
            s@ == start + duplicate_items(items.deep_view().take(i as int)),
    {
        let (section, bullet) = &items[i];
        s.append("  [");
        s.append(section.as_str());
        s.append("] ");
        s.append(bullet.as_str());
        s.append("\n");
        proof {
            let t = items.deep_view().take(i + 1);
            assert(t.drop_last() =~= items.deep_view().take(i as int));
            assert(t.last() == (section@, bullet@));
            assert(s@ =~= start + duplicate_items(t));
        }
    }
    assert(items.deep_view().take(items.len() as int) =~= items.deep_view());
}

impl LintRule {
    /// The diagnostic text of this violation; it starts with the rule's
    /// identifier and a colon.
    pub fn message(&self) -> (m: String)
        ensures
            m@ == message_spec(self@),
    {
        let mut m = String::new();
        match self {
            LintRule::LineCount { actual, cap } => {
                m.append("line-count: ");
                push_decimal(&mut m, *actual);
                m.append(" lines exceeds cap of ");
                push_decimal(&mut m, *cap);
            },
            LintRule::SectionMismatch { expected, got } => {
                m.append("section-mismatch: section headers do not match canonical set\n");
                m.append("  expected:\n");
                push_indented_items(&mut m, expected);
                m.append("  got:\n");
                push_indented_items(&mut m, got);
            },
            LintRule::EmptyAspirations => {
                m.append("empty-aspirations: Aspirations section is empty (must have >=1 bullet)");
            },
            LintRule::DuplicateBullets { duplicates } => {
                m.append("duplicate-bullets: duplicate bullets within section(s):\n");
                push_duplicate_items(&mut m, duplicates);
            },
        }
        assert(m@ =~= message_spec(self@));
        m
    }
}

} // verus!
