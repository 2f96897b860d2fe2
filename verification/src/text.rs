//! Character-level text handling: white space, trimming, and the split of a
//! text into lines.
use vstd::prelude::*;

verus! {

/// The characters with the Unicode `White_Space` property.
pub open spec fn is_white_space(c: char) -> bool {
    let u = c as u32;
    ||| 0x9 <= u <= 0xd
    ||| u == 0x20
    ||| u == 0x85
    ||| u == 0xa0
    ||| u == 0x1680
    ||| 0x2000 <= u <= 0x200a
    ||| u == 0x2028
    ||| u == 0x2029
    ||| u == 0x202f
    ||| u == 0x205f
    ||| u == 0x3000
}

/// Decides `is_white_space`.
pub fn char_is_white_space(c: char) -> (b: bool)
    ensures
        b == is_white_space(c),
{
    let u = c as u32;
    (0x9 <= u && u <= 0xd) || u == 0x20 || u == 0x85 || u == 0xa0 || u == 0x1680 || (0x2000 <= u
        && u <= 0x200a) || u == 0x2028 || u == 0x2029 || u == 0x202f || u == 0x205f || u == 0x3000
}

/// `s` without its leading white space.
pub open spec fn trim_start(s: Seq<char>) -> Seq<char>
    decreases s.len(),
{
    if s.len() > 0 && is_white_space(s[0]) {
        trim_start(s.drop_first())
    } else {
        s
    }
}

/// `s` without its trailing white space.
pub open spec fn trim_end(s: Seq<char>) -> Seq<char>
    decreases s.len(),
{
    if s.len() > 0 && is_white_space(s.last()) {
        trim_end(s.drop_last())
    } else {
        s
    }
}

/// `s` without leading and trailing white space.
pub open spec fn trim(s: Seq<char>) -> Seq<char> {
    trim_end(trim_start(s))
}

/// A line without the carriage return that ended it, if any.
pub open spec fn strip_cr(line: Seq<char>) -> Seq<char> {
    if line.len() > 0 && line.last() == '\r' {
        line.drop_last()
    } else {
        line
    }
}

/// Reading `s` from the start: the lines completed by a line feed so far,
/// and the characters of the line still open.
pub open spec fn scan_lines(s: Seq<char>) -> (Seq<Seq<char>>, Seq<char>)
    decreases s.len(),
{
    if s.len() == 0 {
        (Seq::empty(), Seq::empty())
    } else {
        let (done, open) = scan_lines(s.drop_last());
        if s.last() == '\n' {
            (done.push(strip_cr(open)), Seq::empty())
        } else {
            (done, open.push(s.last()))
        }
    }
}

/// The lines of `s`: split at each line feed, a carriage return right before
/// the line feed belonging to the line ending; a last line without a line
/// feed counts when it is not empty.
pub open spec fn lines_of(s: Seq<char>) -> Seq<Seq<char>> {
    let (done, open) = scan_lines(s);
    if open.len() == 0 {
        done
    } else {
        done.push(open)
    }
}

/// The number of line feeds in `s`.
pub open spec fn count_line_feeds(s: Seq<char>) -> nat
    decreases s.len(),
{
    if s.len() == 0 {
        0
    } else {
        count_line_feeds(s.drop_last()) + if s.last() == '\n' {
            1nat
        } else {
            0nat
        }
    }
}

/// What reading `s` leaves: one completed line per line feed, none holding
/// a line feed, and an open line that is empty exactly after a line feed or
/// at the start, and otherwise ends with the last character of `s`.
proof fn lemma_scan_lines(s: Seq<char>)
    ensures
        ({
            let (done, open) = scan_lines(s);
            &&& done.len() == count_line_feeds(s)
            &&& open.len() == 0 <==> (s.len() == 0 || s.last() == '\n')
            &&& open.len() > 0 ==> open.last() == s.last()
            &&& forall|j: int| 0 <= j < open.len() ==> open[j] != '\n'
            &&& forall|i: int, j: int|
                0 <= i < done.len() && 0 <= j < done[i].len() ==> #[trigger] done[i][j] != '\n'
        }),
    decreases s.len(),
{
    if s.len() > 0 {
        lemma_scan_lines(s.drop_last());
        let (done, open) = scan_lines(s.drop_last());
        if s.last() == '\n' {
            let d2 = done.push(strip_cr(open));
            assert forall|i: int, j: int|
                0 <= i < d2.len() && 0 <= j < d2[i].len() implies #[trigger] d2[i][j] != '\n' by {
                if i == done.len() {
                    assert(d2[i][j] == open[j]);
                } else {
                    assert(d2[i] == done[i]);
                }
            }
        }
    }
}

/// `count_line_feeds` counts the characters equal to a line feed.
proof fn lemma_count_line_feeds(s: Seq<char>)
    ensures
        count_line_feeds(s) == s.filter(|c: char| c == '\n').len(),
    decreases s.len(),
{
    if s.len() > 0 {
        lemma_count_line_feeds(s.drop_last());
        assert(s =~= s.drop_last().push(s.last()));
        s.drop_last().lemma_filter_len_push(|c: char| c == '\n', s.last());
    }
}

/// A text has one line per line feed in it, and one more when it is not
/// empty and does not end with a line feed; empty lines count like others.
pub proof fn lemma_line_count(s: Seq<char>)
    ensures
        lines_of(s).len() == s.filter(|c: char| c == '\n').len() + if s.len() > 0 && s.last()
            != '\n' {
            1int
        } else {
            0int
        },
{
    lemma_scan_lines(s);
    lemma_count_line_feeds(s);
}

/// A text without carriage returns is its lines, each followed by a line
/// feed, once a line feed is added at its end where it lacks one.
pub proof fn lemma_lines_rebuild_text(s: Seq<char>)
    requires
        forall|j: int| 0 <= j < s.len() ==> s[j] != '\r',
    ensures
        lines_of(s).map_values(|l: Seq<char>| l.push('\n')).flatten_alt() == if s.len() > 0
            && s.last() != '\n' {
            s.push('\n')
        } else {
            s
        },
{
    lemma_scan_rebuild(s);
    lemma_scan_lines(s);
    let (done, open) = scan_lines(s);
    if open.len() > 0 {
        let f = |l: Seq<char>| l.push('\n');
        assert(done.push(open).map_values(f) =~= done.map_values(f).push(open.push('\n')));
        assert(done.push(open).map_values(f).drop_last() =~= done.map_values(f));
        assert(s.push('\n') =~= done.map_values(f).flatten_alt() + open.push('\n'));
    } else {
        assert(s =~= done.map_values(|l: Seq<char>| l.push('\n')).flatten_alt() + open);
    }
}

/// Reading a text without carriage returns: the completed lines, each
/// followed by a line feed, and then the open line give back the text.
proof fn lemma_scan_rebuild(s: Seq<char>)
    requires
        forall|j: int| 0 <= j < s.len() ==> s[j] != '\r',
    ensures
        ({
            let (done, open) = scan_lines(s);
            &&& s == done.map_values(|l: Seq<char>| l.push('\n')).flatten_alt() + open
            &&& forall|j: int| 0 <= j < open.len() ==> open[j] != '\r'
        }),
    decreases s.len(),
{
    if s.len() > 0 {
        let p = s.drop_last();
        assert forall|j: int| 0 <= j < p.len() implies p[j] != '\r' by {
            assert(p[j] == s[j]);
        }
        lemma_scan_rebuild(p);
        let (done, open) = scan_lines(p);
        let x = done.map_values(|l: Seq<char>| l.push('\n')).flatten_alt();
        assert(p == x + open);
        assert(s =~= p.push(s.last()));
        if s.last() == '\n' {
            let d2 = done.push(strip_cr(open));
            assert(strip_cr(open) == open);
            let m2 = d2.map_values(|l: Seq<char>| l.push('\n'));
            assert(m2.drop_last() =~= done.map_values(|l: Seq<char>| l.push('\n')));
            assert(m2.last() == open.push('\n'));
            assert(m2.flatten_alt() == x + open.push('\n'));
            assert(s =~= m2.flatten_alt() + Seq::<char>::empty());
        } else {
            assert(s =~= x + open.push(s.last()));
        }
    }
}

/// `s` with each line feed written as a carriage return and a line feed.
pub open spec fn with_crlf(s: Seq<char>) -> Seq<char> {
    s.map_values(|c: char| if c == '\n' { seq!['\r', '\n'] } else { seq![c] }).flatten_alt()
}

/// Ending lines with a carriage return and a line feed in place of a line
/// feed alone changes no line of a text that holds no carriage return.
pub proof fn lemma_crlf_same_lines(s: Seq<char>)
    requires
        forall|j: int| 0 <= j < s.len() ==> s[j] != '\r',
    ensures
        lines_of(with_crlf(s)) == lines_of(s),
{
    lemma_scan_crlf(s);
}

proof fn lemma_scan_crlf(s: Seq<char>)
    requires
        forall|j: int| 0 <= j < s.len() ==> s[j] != '\r',
    ensures
        scan_lines(with_crlf(s)) == scan_lines(s),
        forall|j: int| 0 <= j < scan_lines(s).1.len() ==> scan_lines(s).1[j] != '\r',
    decreases s.len(),
{
    let f = |c: char| if c == '\n' { seq!['\r', '\n'] } else { seq![c] };
    if s.len() == 0 {
        assert(s.map_values(f) =~= Seq::<Seq<char>>::empty());
    } else {
        let p = s.drop_last();
        assert forall|j: int| 0 <= j < p.len() implies p[j] != '\r' by {
            assert(p[j] == s[j]);
        }
        lemma_scan_crlf(p);
        let m = s.map_values(f);
        assert(m.drop_last() =~= p.map_values(f));
        let x = with_crlf(p);
        assert(with_crlf(s) == x + f(s.last()));
        let (done, open) = scan_lines(p);
        if s.last() == '\n' {
            let y = x.push('\r');
            assert(x + f(s.last()) =~= y.push('\n'));
            assert(y.drop_last() =~= x);
            assert(y.push('\n').drop_last() =~= y);
            assert(scan_lines(y) == (done, open.push('\r')));
            assert(open.push('\r').drop_last() =~= open);
            assert(strip_cr(open) == open);
        } else {
            assert(x + f(s.last()) =~= x.push(s.last()));
            assert(x.push(s.last()).drop_last() =~= x);
            let o2 = open.push(s.last());
            assert forall|j: int| 0 <= j < o2.len() implies o2[j] != '\r' by {
                if j < open.len() {
                    assert(o2[j] == open[j]);
                }
            }
        }
    }
}

/// `trim_start` drops exactly the leading white space.
pub proof fn lemma_trim_start(s: Seq<char>) -> (a: int)
    ensures
        0 <= a <= s.len(),
        trim_start(s) == s.skip(a),
        forall|j: int| 0 <= j < a ==> is_white_space(#[trigger] s[j]),
        a < s.len() ==> !is_white_space(s[a]),
    decreases s.len(),
{
    if s.len() > 0 && is_white_space(s[0]) {
        let a0 = lemma_trim_start(s.drop_first());
        assert(s.drop_first().skip(a0) =~= s.skip(a0 + 1));
        assert forall|j: int| 0 <= j < a0 + 1 implies is_white_space(#[trigger] s[j]) by {
            if j > 0 {
                assert(s[j] == s.drop_first()[j - 1]);
            }
        }
        a0 + 1
    } else {
        assert(s.skip(0) =~= s);
        0
    }
}

/// `trim_end` drops exactly the trailing white space.
pub proof fn lemma_trim_end(s: Seq<char>) -> (b: int)
    ensures
        0 <= b <= s.len(),
        trim_end(s) == s.take(b),
        forall|j: int| b <= j < s.len() ==> is_white_space(#[trigger] s[j]),
        b > 0 ==> !is_white_space(s[b - 1]),
    decreases s.len(),
{
    if s.len() > 0 && is_white_space(s.last()) {
        let b0 = lemma_trim_end(s.drop_last());
        assert(s.drop_last().take(b0) =~= s.take(b0));
        assert forall|j: int| b0 <= j < s.len() implies is_white_space(#[trigger] s[j]) by {
            if j < s.len() - 1 {
                assert(s[j] == s.drop_last()[j]);
            }
        }
        b0
    } else {
        assert(s.take(s.len() as int) =~= s);
        s.len() as int
    }
}

/// `trim(s)` is the stretch of `s` between its leading and its trailing
/// white space: all it drops is white space, and it neither starts nor ends
/// with white space.
pub proof fn lemma_trim(s: Seq<char>) -> (ab: (int, int))
    ensures
        0 <= ab.0 <= ab.1 <= s.len(),
        trim(s) == s.subrange(ab.0, ab.1),
        forall|j: int| 0 <= j < ab.0 ==> is_white_space(#[trigger] s[j]),
        forall|j: int| ab.1 <= j < s.len() ==> is_white_space(#[trigger] s[j]),
        ab.0 < ab.1 ==> !is_white_space(s[ab.0]) && !is_white_space(s[ab.1 - 1]),
{
    let a = lemma_trim_start(s);
    let t = s.skip(a);
    let b = lemma_trim_end(t);
    assert(t.take(b) =~= s.subrange(a, a + b));
    assert forall|j: int| a + b <= j < s.len() implies is_white_space(#[trigger] s[j]) by {
        assert(s[j] == t[j - a]);
    }
    if b > 0 {
        assert(s[a + b - 1] == t[b - 1]);
        assert(s[a] == t[0]);
    }
    (a, a + b)
}

/// No line of a text holds a line feed.
pub proof fn lemma_lines_hold_no_line_feed(s: Seq<char>)
    ensures
        forall|i: int, j: int|
            0 <= i < lines_of(s).len() && 0 <= j < lines_of(s)[i].len()
                ==> #[trigger] lines_of(s)[i][j] != '\n',
{
    lemma_scan_lines(s);
    let (done, open) = scan_lines(s);
    let ls = lines_of(s);
    assert forall|i: int, j: int| 0 <= i < ls.len() && 0 <= j < ls[i].len() implies #[trigger] ls[i][j]
        != '\n' by {
        if i < done.len() {
            assert(ls[i] == done[i]);
        } else {
            assert(ls[i] == open);
        }
    }
}

/// A non-empty text that ends neither with a line feed nor with a carriage
/// return has the same lines with a line feed added at its end.
pub proof fn lemma_final_line_feed(s: Seq<char>)
    requires
        s.len() > 0,
        s.last() != '\n',
        s.last() != '\r',
    ensures
        lines_of(s.push('\n')) == lines_of(s),
{
    lemma_scan_lines(s);
    assert(s.push('\n').drop_last() =~= s);
}

/// Splits `contents` into its lines.
pub fn split_lines(contents: &str) -> (lines: Vec<Vec<char>>)
    ensures
        lines.deep_view() == lines_of(contents@),
{
    let mut lines: Vec<Vec<char>> = Vec::new();
    let mut open: Vec<char> = Vec::new();
    let ghost text = contents@;
    for c in it: contents.chars()
        invariant
            it.seq() == text,
            (lines.deep_view(), open@) == scan_lines(text.take(it.index() as int)),
    {
        let ghost i = it.index() as int;
        proof {
            assert(text.take(i + 1).drop_last() =~= text.take(i));
        }
        if c == '\n' {
            let n = open.len();
            if n > 0 && open[n - 1] == '\r' {
                open.pop();
            }
            let ghost before = lines.deep_view();
            let ghost line = open@;
            lines.push(open);
            open = Vec::new();
            assert(lines.deep_view()[before.len() as int] =~= line);
            assert(lines.deep_view() =~= before.push(strip_cr(scan_lines(text.take(i)).1)));
        } else {
            open.push(c);
        }
    }
    proof {
        assert(text.take(text.len() as int) =~= text);
    }
    if open.len() > 0 {
        let ghost before = lines.deep_view();
        let ghost line = open@;
        lines.push(open);
        assert(lines.deep_view()[before.len() as int] =~= line);
        assert(lines.deep_view() =~= before.push(scan_lines(text).1));
    }
    lines
}

/// `String::push` appends one character at the end.
pub assume_specification[ std::string::String::push ](string: &mut String, ch: char)
    ensures
        final(string)@ == old(string)@.push(ch),
;

/// A `String` holding the characters of `chars`.
pub fn string_from_chars(chars: &Vec<char>) -> (s: String)
    ensures
        s@ == chars@,
{
    let mut s = String::new();
    for i in 0..chars.len()
        invariant
            s@ == chars@.take(i as int),
    {
        s.push(chars[i]);
        assert(chars@.take(i + 1) =~= chars@.take(i as int).push(chars@[i as int]));
    }
    assert(chars@.take(chars.len() as int) =~= chars@);
    s
}

/// Whether two character vectors hold the same characters.
pub fn chars_equal(a: &Vec<char>, b: &Vec<char>) -> (same: bool)
    ensures
        same == (a@ == b@),
{
    if a.len() != b.len() {
        return false;
    }
    for i in 0..a.len()
        invariant
            a.len() == b.len(),
            forall|j: int| 0 <= j < i ==> a@[j] == b@[j],
    {
        if a[i] != b[i] {
            return false;
        }
    }
    assert(a@ =~= b@);
    true
}

/// The characters of `line` from position `from` on, with leading and
/// trailing white space removed.
pub fn trimmed_tail(line: &Vec<char>, from: usize) -> (t: Vec<char>)
    requires
        from <= line.len(),
    ensures
        t@ == trim(line@.skip(from as int)),
{
    let n = line.len();
    let ghost s = line@;
    let mut a = from;
    assert(s.skip(from as int) =~= s.subrange(from as int, n as int));
    while a < n && char_is_white_space(line[a])
        invariant
            from <= a <= n,
            n == s.len(),
            s == line@,
            trim_start(s.skip(from as int)) == trim_start(s.subrange(a as int, n as int)),
        decreases n - a,
    {
        assert(s.subrange(a as int, n as int).drop_first() =~= s.subrange(a + 1, n as int));
        a = a + 1;
    }
    let mut b = n;
    while b > a && char_is_white_space(line[b - 1])
        invariant
            from <= a <= b <= n,
            n == s.len(),
            s == line@,
            trim_start(s.skip(from as int)) == s.subrange(a as int, n as int),
            trim_end(s.subrange(a as int, n as int)) == trim_end(s.subrange(a as int, b as int)),
        decreases b - a,
    {
        assert(s.subrange(a as int, b as int).drop_last() =~= s.subrange(a as int, b - 1));
        b = b - 1;
    }
    let mut t: Vec<char> = Vec::new();
    let mut k = a;
    while k < b
        invariant
            a <= k <= b <= n,
            n == s.len(),
            s == line@,
            t@ == s.subrange(a as int, k as int),
        decreases b - k,
    {
        t.push(line[k]);
        assert(s.subrange(a as int, k + 1) =~= s.subrange(a as int, k as int).push(s[k as int]));
        k = k + 1;
    }
    t
}

} // verus!
