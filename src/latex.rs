use vstd::prelude::*;

use crate::scan::{digits_value, in_class, parse_digits, to_chars, CharClass};

verus! {

/// Characters with the Unicode `White_Space` property, which `str::trim`
/// removes.
pub open spec fn is_white(c: char) -> bool {
    ('\u{9}' <= c && c <= '\u{d}') || c == ' ' || c == '\u{85}' || c == '\u{a0}' || c == '\u{1680}'
        || ('\u{2000}' <= c && c <= '\u{200a}') || c == '\u{2028}' || c == '\u{2029}' || c
        == '\u{202f}' || c == '\u{205f}' || c == '\u{3000}'
}

/// The lines of `t`, split at each line break, as position ranges; text
/// without line breaks is one line, and a trailing break ends in an empty
/// line.
pub open spec fn line_ranges(t: Seq<char>) -> Seq<(int, int)>
    decreases t.len(),
{
    if t.len() == 0 {
        seq![(0, 0)]
    } else {
        let rs = line_ranges(t.drop_last());
        if t.last() == '\n' {
            rs.push((t.len() as int, t.len() as int))
        } else {
            rs.update(rs.len() - 1, (rs.last().0, t.len() as int))
        }
    }
}

/// The first position in `[a, b)` that holds no white space, or `b`.
pub open spec fn trim_lo(t: Seq<char>, a: int, b: int) -> int
    decreases b - a,
{
    if a >= b || !is_white(t[a]) {
        a
    } else {
        trim_lo(t, a + 1, b)
    }
}

/// The end of `[a, b)` without its trailing white space.
pub open spec fn trim_hi(t: Seq<char>, a: int, b: int) -> int
    decreases b - a,
{
    if a >= b || !is_white(t[b - 1]) {
        b
    } else {
        trim_hi(t, a, b - 1)
    }
}

/// `t[a..b]` without leading and trailing white space, as a range.
pub open spec fn trimmed(t: Seq<char>, a: int, b: int) -> (int, int) {
    (trim_lo(t, a, b), trim_hi(t, trim_lo(t, a, b), b))
}

/// The first space in `[a, b)`, or `b`.
pub open spec fn next_space(t: Seq<char>, a: int, b: int) -> int
    decreases b - a,
{
    if a >= b || t[a] == ' ' {
        a
    } else {
        next_space(t, a + 1, b)
    }
}

pub open spec fn emergency() -> Seq<char> {
    seq!['E', 'm', 'e', 'r', 'g', 'e', 'n', 'c', 'y', ' ', 's', 't', 'o', 'p']
}

/// Whether `t[a..b]` holds `Emergency stop`.
pub open spec fn has_emergency(t: Seq<char>, a: int, b: int) -> bool {
    exists|p: int| a <= p && p + 14 <= b && #[trigger] t.subrange(p, p + 14) == emergency()
}

/// `s` without one leading `+`.
pub open spec fn unsigned_digits(s: Seq<char>) -> Seq<char> {
    if s.len() > 0 && s[0] == '+' {
        s.drop_first()
    } else {
        s
    }
}

pub open spec fn all_digits(s: Seq<char>) -> bool {
    forall|i: int| 0 <= i < s.len() ==> in_class(CharClass::Digit, #[trigger] s[i])
}

/// The number that `usize::from_str` reads from `s`: an optional `+`, then
/// at least one decimal digit, the value fitting in a `usize`.
pub open spec fn parse_usize(s: Seq<char>) -> Option<usize> {
    let d = unsigned_digits(s);
    if d.len() == 0 || !all_digits(d) || digits_value(d) > usize::MAX {
        None
    } else {
        Some(digits_value(d) as usize)
    }
}

/// What the compiler's log tells of an error, as ranges of the log: the
/// reason (a line `! ...`), the element (what follows the line number in a
/// line `l.<n> ...`) and the line number.
pub ghost struct LatexReport {
    pub reason: Option<(int, int)>,
    pub element: Option<(int, int)>,
    pub line: usize,
}

/// One line `[a, b)` of the log. Lines that mention `Emergency stop` are
/// passed over. A line `! ...` is the reason. In a line `l....` the text
/// after `l.` up to the first space, trimmed, is the line number where it
/// reads as one, and the text after that space, trimmed, is the element.
pub open spec fn report_step(t: Seq<char>, st: LatexReport, a: int, b: int) -> LatexReport {
    let bang = b - a >= 2 && t[a] == '!' && t[a + 1] == ' ';
    let ell = b - a >= 2 && t[a] == 'l' && t[a + 1] == '.';
    if !(bang || ell) || has_emergency(t, a, b) {
        st
    } else if bang {
        LatexReport { reason: Some((a, b)), ..st }
    } else {
        let sp = next_space(t, a + 2, b);
        let num = trimmed(t, a + 2, sp);
        LatexReport {
            reason: st.reason,
            element: if sp < b {
                Some(trimmed(t, sp + 1, b))
            } else {
                st.element
            },
            line: match parse_usize(t.subrange(num.0, num.1)) {
                Some(v) => v,
                None => st.line,
            },
        }
    }
}

pub open spec fn report_lines(t: Seq<char>, rs: Seq<(int, int)>) -> LatexReport
    decreases rs.len(),
{
    if rs.len() == 0 {
        LatexReport { reason: None, element: None, line: usize::MAX }
    } else {
        report_step(t, report_lines(t, rs.drop_last()), rs.last().0, rs.last().1)
    }
}

/// The text of an optional range of `t`; empty where there is none.
pub open spec fn range_text(t: Seq<char>, r: Option<(int, int)>) -> Seq<char> {
    match r {
        Some((a, b)) => t.subrange(a, b),
        None => Seq::empty(),
    }
}

pub proof fn lemma_line_ranges(t: Seq<char>)
    ensures
        line_ranges(t).len() >= 1,
        line_ranges(t).last().1 == t.len(),
        0 <= line_ranges(t).last().0 <= t.len(),
        forall|k: int|
            0 <= k < line_ranges(t).len() ==> 0 <= (#[trigger] line_ranges(t)[k]).0 <= line_ranges(
                t,
            )[k].1 <= t.len(),
    decreases t.len(),
{
    if t.len() > 0 {
        lemma_line_ranges(t.drop_last());
    }
}

fn trim_range(t: &Vec<char>, a: usize, b: usize) -> (r: (usize, usize))
    requires
        a <= b <= t.len(),
    ensures
        r.0 as int == trimmed(t@, a as int, b as int).0,
        r.1 as int == trimmed(t@, a as int, b as int).1,
        a <= r.0 <= r.1 <= b,
{
    let mut lo = a;
    while lo < b && is_white_exec(t[lo])
        invariant
            a <= lo <= b <= t.len(),
            trim_lo(t@, a as int, b as int) == trim_lo(t@, lo as int, b as int),
        decreases b - lo,
    {
        lo = lo + 1;
    }
    let mut hi = b;
    while hi > lo && is_white_exec(t[hi - 1])
        invariant
            lo <= hi <= b <= t.len(),
            trim_hi(t@, lo as int, b as int) == trim_hi(t@, lo as int, hi as int),
        decreases hi - lo,
    {
        hi = hi - 1;
    }
    (lo, hi)
}

fn is_white_exec(c: char) -> (r: bool)
    ensures
        r == is_white(c),
{
    ('\u{9}' <= c && c <= '\u{d}') || c == ' ' || c == '\u{85}' || c == '\u{a0}' || c == '\u{1680}'
        || ('\u{2000}' <= c && c <= '\u{200a}') || c == '\u{2028}' || c == '\u{2029}' || c
        == '\u{202f}' || c == '\u{205f}' || c == '\u{3000}'
}

fn emergency_in(t: &Vec<char>, a: usize, b: usize) -> (r: bool)
    requires
        a <= b <= t.len(),
    ensures
        r == has_emergency(t@, a as int, b as int),
{
    let pat: Vec<char> = vec!['E', 'm', 'e', 'r', 'g', 'e', 'n', 'c', 'y', ' ', 's', 't', 'o', 'p'];
    if b - a < 14 {
        return false;
    }
    let mut p = a;
    while p < b && b - p >= 14
        invariant
            a <= p <= b,
            b <= t.len(),
            pat@ == emergency(),
            forall|q: int| a <= q < p ==> #[trigger] t@.subrange(q, q + 14) != emergency(),
        decreases b - p,
    {
        let mut k: usize = 0;
        while k < 14 && t[p + k] == pat[k]
            invariant
                k <= 14,
                p + 14 <= b <= t.len(),
                pat@ == emergency(),
                t@.subrange(p as int, p + k) == pat@.subrange(0, k as int),
            decreases 14 - k,
        {
            assert(t@.subrange(p as int, p + k + 1) =~= t@.subrange(p as int, p + k).push(t@[p + k]));
            assert(pat@.subrange(0, k + 1) =~= pat@.subrange(0, k as int).push(pat@[k as int]));
            k = k + 1;
        }
        if k == 14 {
            assert(pat@.subrange(0, 14) =~= pat@);
            return true;
        }
        assert(t@.subrange(p as int, p + 14)[k as int] != emergency()[k as int]);
        p = p + 1;
    }
    false
}

fn space_from(t: &Vec<char>, a: usize, b: usize) -> (r: usize)
    requires
        a <= b <= t.len(),
    ensures
        r as int == next_space(t@, a as int, b as int),
        a <= r <= b,
{
    let mut i = a;
    while i < b && t[i] != ' '
        invariant
            a <= i <= b <= t.len(),
            next_space(t@, a as int, b as int) == next_space(t@, i as int, b as int),
        decreases b - i,
    {
        i = i + 1;
    }
    i
}

fn parse_number(t: &Vec<char>, a: usize, b: usize) -> (r: Option<usize>)
    requires
        a <= b <= t.len(),
    ensures
        r == parse_usize(t@.subrange(a as int, b as int)),
{
    let s = if a < b && t[a] == '+' {
        a + 1
    } else {
        a
    };
    let ghost d = t@.subrange(s as int, b as int);
    let ghost sd = t@.subrange(a as int, b as int);
    assert(a < b && t@[a as int] == '+' ==> sd.drop_first() =~= d);
    assert(!(a < b && t@[a as int] == '+') ==> sd =~= d);
    if s == b {
        return None;
    }
    let mut i = s;
    while i < b
        invariant
            s <= i <= b <= t.len(),
            d == t@.subrange(s as int, b as int),
            sd == t@.subrange(a as int, b as int),
            d == unsigned_digits(sd),
            forall|j: int| s <= j < i ==> in_class(CharClass::Digit, #[trigger] t@[j]),
        decreases b - i,
    {
        if !('0' <= t[i] && t[i] <= '9') {
            assert(!in_class(CharClass::Digit, d[i - s]));
            assert(!all_digits(d));
            return None;
        }
        i = i + 1;
    }
    assert forall|j: int| 0 <= j < d.len() implies in_class(CharClass::Digit, #[trigger] d[j]) by {
        assert(d[j] == t@[s + j]);
    }
    parse_digits(t, s, b)
}

fn step(t: &Vec<char>, st: (Option<(usize, usize)>, Option<(usize, usize)>, usize), a: usize, b: usize) -> (r: (
    Option<(usize, usize)>,
    Option<(usize, usize)>,
    usize,
))
    requires
        a <= b <= t.len(),
    ensures
        report_view(r) == report_step(t@, report_view(st), a as int, b as int),
        ranges_within(st, t.len() as nat) ==> ranges_within(r, t.len() as nat),
{
    let bang = b - a >= 2 && t[a] == '!' && t[a + 1] == ' ';
    let ell = b - a >= 2 && t[a] == 'l' && t[a + 1] == '.';
    if !(bang || ell) || emergency_in(t, a, b) {
        st
    } else if bang {
        (Some((a, b)), st.1, st.2)
    } else {
        let sp = space_from(t, a + 2, b);
        let num = trim_range(t, a + 2, sp);
        let element = if sp < b {
            Some(trim_range(t, sp + 1, b))
        } else {
            st.1
        };
        let line = match parse_number(t, num.0, num.1) {
            Some(v) => v,
            None => st.2,
        };
        (st.0, element, line)
    }
}

pub open spec fn ranges_within(r: (Option<(usize, usize)>, Option<(usize, usize)>, usize), n: nat) -> bool {
    &&& (r.0 matches Some((a, b)) ==> a <= b <= n)
    &&& (r.1 matches Some((a, b)) ==> a <= b <= n)
}

pub open spec fn opt_range(r: Option<(usize, usize)>) -> Option<(int, int)> {
    match r {
        Some((a, b)) => Some((a as int, b as int)),
        None => None,
    }
}

pub open spec fn report_view(r: (Option<(usize, usize)>, Option<(usize, usize)>, usize)) -> LatexReport {
    LatexReport { reason: opt_range(r.0), element: opt_range(r.1), line: r.2 }
}

/// What the log `output` of a failed LaTeX run tells of the error: the
/// last reason line, the last element and the last line number found (see
/// `report_step`); an empty text and `usize::MAX` where none is found.
pub fn latex_error(output: &str) -> (r: (String, String, usize))
    requires
        output@.len() < usize::MAX,
    ensures
        ({
            let rep = report_lines(output@, line_ranges(output@));
            &&& r.0@ == range_text(output@, rep.reason)
            &&& r.1@ == range_text(output@, rep.element)
            &&& r.2 == rep.line
        }),
{
    let t = to_chars(output);
    let mut st: (Option<(usize, usize)>, Option<(usize, usize)>, usize) = (None, None, usize::MAX);
    let mut start: usize = 0;
    let mut i: usize = 0;
    let ghost mut done: Seq<(int, int)> = Seq::empty();
    assert(t@.subrange(0, 0) =~= Seq::<char>::empty());
    while i < t.len()
        invariant
            t@ == output@,
            start <= i <= t.len(),
            line_ranges(t@.subrange(0, i as int)) == done.push((start as int, i as int)),
            forall|k: int| 0 <= k < done.len() ==> 0 <= (#[trigger] done[k]).0 <= done[k].1 <= i,
            report_view(st) == report_lines(t@, done),
            ranges_within(st, t.len() as nat),
        decreases t.len() - i,
    {
        assert(t@.subrange(0, i + 1).drop_last() =~= t@.subrange(0, i as int));
        if t[i] == '\n' {
            st = step(&t, st, start, i);
            proof {
                let nd = done.push((start as int, i as int));
                assert(nd.drop_last() =~= done);
                done = nd;
            }
            start = i + 1;
        }
        proof {
            let ls = done.push((start as int, i as int));
            assert(ls.update(ls.len() - 1, (start as int, i + 1)) =~= done.push((start as int, i + 1)));
        }
        i = i + 1;
    }
    assert(t@.subrange(0, t.len() as int) =~= t@);
    st = step(&t, st, start, i);
    proof {
        let nd = done.push((start as int, i as int));
        assert(nd.drop_last() =~= done);
    }
    let reason = match st.0 {
        Some((a, b)) => String::from_str(output.substring_char(a, b)),
        None => String::new(),
    };
    let element = match st.1 {
        Some((a, b)) => String::from_str(output.substring_char(a, b)),
        None => String::new(),
    };
    (reason, element, st.2)
}

} // verus!
