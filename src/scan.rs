use vstd::prelude::*;

use crate::content::{fence_kind, ContentType};
use crate::error::Error;

verus! {

/// The classes of characters that the scanner skips over.
#[derive(PartialEq, Eq, Structural, Clone, Copy)]
pub enum CharClass {
    /// `a` to `z`.
    Lower,
    /// `0` to `9`.
    Digit,
    /// ASCII letters, digits and `_`.
    Word,
    /// A line break.
    Newline,
    /// Anything but `]`.
    NotCloseBracket,
    /// Anything but `)` and a line break.
    PathChar,
}

pub open spec fn in_class(k: CharClass, c: char) -> bool {
    match k {
        CharClass::Lower => 'a' <= c && c <= 'z',
        CharClass::Digit => '0' <= c && c <= '9',
        CharClass::Word => ('a' <= c && c <= 'z') || ('A' <= c && c <= 'Z') || ('0' <= c && c <= '9')
            || c == '_',
        CharClass::Newline => c == '\n',
        CharClass::NotCloseBracket => c != ']',
        CharClass::PathChar => c != ')' && c != '\n',
    }
}

/// The first position from `p` on that holds no character of class `k`
/// (the length of `t` where every one does).
pub open spec fn skip_class(t: Seq<char>, p: int, k: CharClass) -> int
    decreases t.len() - p,
{
    if p >= t.len() || !in_class(k, t[p]) {
        p
    } else {
        skip_class(t, p + 1, k)
    }
}

/// Whether three backticks start at `p`.
pub open spec fn ticks_at(t: Seq<char>, p: int) -> bool {
    &&& 0 <= p
    &&& p + 3 <= t.len()
    &&& t[p] == '`'
    &&& t[p + 1] == '`'
    &&& t[p + 2] == '`'
}

/// The first position from `p` on where three backticks start (the length
/// of `t` where none does).
pub open spec fn next_ticks(t: Seq<char>, p: int) -> int
    decreases t.len() - p,
{
    if p + 3 > t.len() {
        t.len() as int
    } else if ticks_at(t, p) {
        p
    } else {
        next_ticks(t, p + 1)
    }
}

pub proof fn lemma_next_ticks(t: Seq<char>, p: int)
    requires
        0 <= p,
    ensures
        next_ticks(t, p) <= t.len(),
        next_ticks(t, p) < t.len() ==> p <= next_ticks(t, p) && ticks_at(t, next_ticks(t, p)),
    decreases t.len() - p,
{
    if p + 3 <= t.len() && !ticks_at(t, p) {
        lemma_next_ticks(t, p + 1);
    }
}

/// Number of line breaks in `s`.
pub open spec fn count_newlines(s: Seq<char>) -> nat
    decreases s.len(),
{
    if s.len() == 0 {
        0
    } else {
        count_newlines(s.drop_last()) + if s.last() == '\n' {
            1nat
        } else {
            0nat
        }
    }
}

/// The 1-based number of the line that holds position `i`.
pub open spec fn line_at(t: Seq<char>, i: int) -> int {
    1 + count_newlines(t.subrange(0, i)) as int
}

pub proof fn lemma_count_newlines_bound(s: Seq<char>)
    ensures
        count_newlines(s) <= s.len(),
    decreases s.len(),
{
    if s.len() > 0 {
        lemma_count_newlines_bound(s.drop_last());
    }
}

/// Whether a section header (a line that starts with `#`, not the first
/// line) starts at `i`.
pub open spec fn header_at(t: Seq<char>, i: int) -> bool {
    0 < i < t.len() && t[i - 1] == '\n' && t[i] == '#'
}

/// The lines of the section headers that start before position `n`.
pub open spec fn header_lines(t: Seq<char>, n: int) -> Seq<usize>
    decreases n,
{
    if n <= 0 {
        Seq::empty()
    } else if header_at(t, n - 1) {
        header_lines(t, n - 1).push(line_at(t, n - 1) as usize)
    } else {
        header_lines(t, n - 1)
    }
}

/// The characters of `s`, in order.
pub fn to_chars(s: &str) -> (r: Vec<char>)
    ensures
        r@ == s@,
{
    let mut r: Vec<char> = Vec::new();
    for c in it: s.chars()
        invariant
            r@ == it.seq().subrange(0, it.index() as int),
    {
        r.push(c);
    }
    r
}

/// Advances from `p` over characters of class `k`.
pub fn skip(t: &Vec<char>, p: usize, k: CharClass) -> (r: usize)
    requires
        p <= t.len(),
    ensures
        r == skip_class(t@, p as int, k),
        p <= r <= t.len(),
{
    let mut i = p;
    while i < t.len() && char_in_class(k, t[i])
        invariant
            p <= i <= t.len(),
            skip_class(t@, p as int, k) == skip_class(t@, i as int, k),
        decreases t.len() - i,
    {
        i = i + 1;
    }
    i
}

fn char_in_class(k: CharClass, c: char) -> (r: bool)
    ensures
        r == in_class(k, c),
{
    match k {
        CharClass::Lower => 'a' <= c && c <= 'z',
        CharClass::Digit => '0' <= c && c <= '9',
        CharClass::Word => ('a' <= c && c <= 'z') || ('A' <= c && c <= 'Z') || ('0' <= c && c
            <= '9') || c == '_',
        CharClass::Newline => c == '\n',
        CharClass::NotCloseBracket => c != ']',
        CharClass::PathChar => c != ')' && c != '\n',
    }
}

/// Whether three backticks start at `p`.
pub fn ticks(t: &Vec<char>, p: usize) -> (r: bool)
    ensures
        r == ticks_at(t@, p as int),
{
    p < t.len() && t.len() - p >= 3 && t[p] == '`' && t[p + 1] == '`' && t[p + 2] == '`'
}

/// The first position from `p` on where three backticks start.
pub fn find_ticks(t: &Vec<char>, p: usize) -> (r: usize)
    ensures
        r == next_ticks(t@, p as int),
        r <= t.len(),
{
    let mut i = p;
    while i < t.len() && t.len() - i >= 3 && !ticks(t, i)
        invariant
            p <= i,
            next_ticks(t@, p as int) == next_ticks(t@, i as int),
        decreases t.len() - i,
    {
        i = i + 1;
    }
    if i < t.len() && t.len() - i >= 3 {
        i
    } else {
        t.len()
    }
}

/// The line of every position: `r[i]` is the line that holds position `i`,
/// for `i` up to and including the length of `t`.
pub fn line_table(t: &Vec<char>) -> (r: Vec<usize>)
    requires
        t.len() < usize::MAX,
    ensures
        r.len() == t.len() + 1,
        forall|i: int| 0 <= i <= t.len() ==> r[i] == line_at(t@, i),
{
    let mut r: Vec<usize> = Vec::new();
    r.push(1);
    assert(t@.subrange(0, 0) =~= Seq::<char>::empty());
    let mut i: usize = 0;
    while i < t.len()
        invariant
            t.len() < usize::MAX,
            i <= t.len(),
            r.len() == i + 1,
            forall|j: int| 0 <= j <= i ==> r[j] == line_at(t@, j),
            r[i as int] <= i + 1,
        decreases t.len() - i,
    {
        assert(t@.subrange(0, i + 1).drop_last() =~= t@.subrange(0, i as int));
        let next = if t[i] == '\n' {
            r[i] + 1
        } else {
            r[i]
        };
        r.push(next);
        i = i + 1;
    }
    r
}

/// The lines of all section headers, in order.
pub fn headers(t: &Vec<char>, lines: &Vec<usize>) -> (r: Vec<usize>)
    requires
        lines.len() == t.len() + 1,
        forall|i: int| 0 <= i <= t.len() ==> lines[i] == line_at(t@, i),
    ensures
        r@ == header_lines(t@, t.len() as int),
{
    let mut r: Vec<usize> = Vec::new();
    let mut i: usize = 0;
    while i < t.len()
        invariant
            lines.len() == t.len() + 1,
            forall|i: int| 0 <= i <= t.len() ==> lines[i] == line_at(t@, i),
            i <= t.len(),
            r@ == header_lines(t@, i as int),
        decreases t.len() - i,
    {
        if i > 0 && t[i - 1] == '\n' && t[i] == '#' {
            r.push(lines[i]);
        }
        i = i + 1;
    }
    r
}

} // verus!

verus! {

/// The height directive that may follow a fence keyword.
pub open spec fn height_key() -> Seq<char> {
    seq![',', 'h', 'e', 'i', 'g', 'h', 't', '=']
}

pub open spec fn key_at(t: Seq<char>, p: int) -> bool {
    0 <= p && p + 8 <= t.len() && t.subrange(p, p + 8) == height_key()
}

/// A fenced block: three backticks, a keyword of at least three lowercase
/// letters, an optional `,height=<digits>`, optional word characters, a line
/// break, the inner text, and three backticks. Positions are half-open.
pub ghost struct Fence {
    pub start: int,
    pub name: (int, int),
    pub height: Option<(int, int)>,
    pub inner: (int, int),
    pub end: int,
}

/// The fenced block that starts at `q`, if one does. The inner text ends at
/// the first three backticks after its first character; with none there, an
/// empty block is one whose closing backticks follow the line break at once.
pub open spec fn fence_at(t: Seq<char>, q: int) -> Option<Fence> {
    if !ticks_at(t, q) {
        None
    } else {
        let ns = q + 3;
        let ne = skip_class(t, ns, CharClass::Lower);
        let ds = ne + 8;
        let de = skip_class(t, ds, CharClass::Digit);
        let with_height = key_at(t, ne) && de > ds;
        let we = if with_height {
            skip_class(t, de, CharClass::Word)
        } else {
            skip_class(t, ne, CharClass::Word)
        };
        if ne - ns < 3 || !(we < t.len() && t[we] == '\n') {
            None
        } else {
            let h = we + 1;
            let k = next_ticks(t, h + 1);
            let height = if with_height {
                Some((ds, de))
            } else {
                None
            };
            if k < t.len() {
                Some(Fence { start: q, name: (ns, ne), height, inner: (h, k), end: k + 3 })
            } else if ticks_at(t, h) {
                Some(Fence { start: q, name: (ns, ne), height, inner: (h, h), end: h + 3 })
            } else {
                None
            }
        }
    }
}

/// The fenced blocks from position `p` on, found left to right, each search
/// going on after the end of the last block found.
pub open spec fn fences_from(t: Seq<char>, p: int) -> Seq<Fence>
    decreases t.len() - p,
{
    if p < 0 || p >= t.len() {
        Seq::empty()
    } else {
        match fence_at(t, p) {
            Some(f) => if p < f.end <= t.len() {
                seq![f] + fences_from(t, f.end)
            } else {
                Seq::empty()
            },
            None => fences_from(t, p + 1),
        }
    }
}

/// An image link on a line of its own: a line break, `![alt]`, `(path)` and
/// the line breaks that follow.
pub ghost struct FileRef {
    pub start: int,
    pub path: (int, int),
    pub newlines: int,
    pub end: int,
}

pub open spec fn file_at(t: Seq<char>, q: int) -> Option<FileRef> {
    if !(0 <= q && q + 3 <= t.len() && t[q] == '\n' && t[q + 1] == '!' && t[q + 2] == '[') {
        None
    } else {
        let a = skip_class(t, q + 3, CharClass::NotCloseBracket);
        let b = skip_class(t, a + 2, CharClass::PathChar);
        let e = skip_class(t, b + 1, CharClass::Newline);
        if !(a + 1 < t.len() && t[a + 1] == '(') || !(b < t.len() && t[b] == ')') {
            None
        } else {
            Some(FileRef { start: q, path: (a + 2, b), newlines: e - (b + 1), end: e })
        }
    }
}

/// The image links from position `p` on, found left to right.
pub open spec fn files_from(t: Seq<char>, p: int) -> Seq<FileRef>
    decreases t.len() - p,
{
    if p < 0 || p >= t.len() {
        Seq::empty()
    } else {
        match file_at(t, p) {
            Some(f) => if p < f.end <= t.len() {
                seq![f] + files_from(t, f.end)
            } else {
                Seq::empty()
            },
            None => files_from(t, p + 1),
        }
    }
}

/// Positions of a fenced block.
#[derive(Clone, Copy)]
pub struct FenceSpan {
    pub start: usize,
    pub name: (usize, usize),
    pub height: Option<(usize, usize)>,
    pub inner: (usize, usize),
    pub end: usize,
}

impl View for FenceSpan {
    type V = Fence;

    open spec fn view(&self) -> Fence {
        Fence {
            start: self.start as int,
            name: (self.name.0 as int, self.name.1 as int),
            height: match self.height {
                Some(h) => Some((h.0 as int, h.1 as int)),
                None => None,
            },
            inner: (self.inner.0 as int, self.inner.1 as int),
            end: self.end as int,
        }
    }
}

/// Positions of an image link.
#[derive(Clone, Copy)]
pub struct FileSpan {
    pub start: usize,
    pub path: (usize, usize),
    pub newlines: usize,
    pub end: usize,
}

impl View for FileSpan {
    type V = FileRef;

    open spec fn view(&self) -> FileRef {
        FileRef {
            start: self.start as int,
            path: (self.path.0 as int, self.path.1 as int),
            newlines: self.newlines as int,
            end: self.end as int,
        }
    }
}

fn key(t: &Vec<char>, p: usize) -> (r: bool)
    ensures
        r == key_at(t@, p as int),
{
    let k = vec![',', 'h', 'e', 'i', 'g', 'h', 't', '='];
    if p > t.len() || t.len() - p < 8 {
        return false;
    }
    let mut i: usize = 0;
    while i < 8
        invariant
            p + 8 <= t.len(),
            k@ == height_key(),
            i <= 8,
            t@.subrange(p as int, p + i) == k@.subrange(0, i as int),
        decreases 8 - i,
    {
        if t[p + i] != k[i] {
            assert(t@.subrange(p as int, p + 8)[i as int] != height_key()[i as int]);
            return false;
        }
        assert(t@.subrange(p as int, p + i + 1) =~= t@.subrange(p as int, p + i).push(t@[p + i]));
        assert(k@.subrange(0, i + 1) =~= k@.subrange(0, i as int).push(k@[i as int]));
        i = i + 1;
    }
    assert(k@.subrange(0, 8) =~= k@);
    true
}

/// The fenced block that starts at `q`, if one does.
pub fn fence(t: &Vec<char>, q: usize) -> (r: Option<FenceSpan>)
    requires
        t.len() < usize::MAX - 16,
    ensures
        match r {
            Some(s) => fence_at(t@, q as int) == Some(s@) && q < s.end <= t.len(),
            None => fence_at(t@, q as int) is None,
        },
{
    if !ticks(t, q) {
        return None;
    }
    let ns = q + 3;
    let ne = skip(t, ns, CharClass::Lower);
    let ds = ne + 8;
    let with_height;
    let de;
    if ds <= t.len() {
        de = skip(t, ds, CharClass::Digit);
        with_height = key(t, ne) && de > ds;
    } else {
        de = ds;
        with_height = false;
        assert(!key_at(t@, ne as int));
    }
    let we = if with_height {
        skip(t, de, CharClass::Word)
    } else {
        skip(t, ne, CharClass::Word)
    };
    if ne - ns < 3 || !(we < t.len() && t[we] == '\n') {
        return None;
    }
    let h = we + 1;
    let k = find_ticks(t, h + 1);
    proof {
        lemma_next_ticks(t@, h + 1);
    }
    let height = if with_height {
        Some((ds, de))
    } else {
        None
    };
    if k < t.len() {
        Some(FenceSpan { start: q, name: (ns, ne), height, inner: (h, k), end: k + 3 })
    } else if ticks(t, h) {
        Some(FenceSpan { start: q, name: (ns, ne), height, inner: (h, h), end: h + 3 })
    } else {
        None
    }
}

/// The image link that starts at `q`, if one does.
pub fn file_ref(t: &Vec<char>, q: usize) -> (r: Option<FileSpan>)
    requires
        t.len() < usize::MAX - 16,
    ensures
        match r {
            Some(s) => file_at(t@, q as int) == Some(s@) && q < s.end <= t.len(),
            None => file_at(t@, q as int) is None,
        },
{
    if !(q < t.len() && t.len() - q >= 3 && t[q] == '\n' && t[q + 1] == '!' && t[q + 2] == '[') {
        return None;
    }
    let a = skip(t, q + 3, CharClass::NotCloseBracket);
    if !(a + 1 < t.len() && t[a + 1] == '(') {
        return None;
    }
    let b = skip(t, a + 2, CharClass::PathChar);
    if !(b < t.len() && t[b] == ')') {
        return None;
    }
    let e = skip(t, b + 1, CharClass::Newline);
    Some(FileSpan { start: q, path: (a + 2, b), newlines: e - (b + 1), end: e })
}

/// All fenced blocks of `t`, in order.
pub fn fences(t: &Vec<char>) -> (r: Vec<FenceSpan>)
    requires
        t.len() < usize::MAX - 16,
    ensures
        r@.map_values(|s: FenceSpan| s@) == fences_from(t@, 0),
        forall|i: int| 0 <= i < r.len() ==> r[i].end <= t.len(),
{
    let mut r: Vec<FenceSpan> = Vec::new();
    let mut p: usize = 0;
    while p < t.len()
        invariant
            t.len() < usize::MAX - 16,
            p <= t.len(),
            r@.map_values(|s: FenceSpan| s@) + fences_from(t@, p as int) == fences_from(t@, 0),
            forall|i: int| 0 <= i < r.len() ==> r[i].end <= t.len(),
        decreases t.len() - p,
    {
        let ghost before = r@.map_values(|s: FenceSpan| s@);
        match fence(t, p) {
            Some(s) => {
                r.push(s);
                assert(r@.map_values(|s: FenceSpan| s@) =~= before.push(s@));
                assert(before.push(s@) + fences_from(t@, s.end as int) =~= before + (seq![s@]
                    + fences_from(t@, s.end as int)));
                p = s.end;
            },
            None => {
                p = p + 1;
            },
        }
    }
    assert(fences_from(t@, p as int) =~= Seq::<Fence>::empty());
    assert(r@.map_values(|s: FenceSpan| s@) + Seq::<Fence>::empty() =~= r@.map_values(|s: FenceSpan| s@));
    r
}

/// All image links of `t`, in order.
pub fn file_refs(t: &Vec<char>) -> (r: Vec<FileSpan>)
    requires
        t.len() < usize::MAX - 16,
    ensures
        r@.map_values(|s: FileSpan| s@) == files_from(t@, 0),
        forall|i: int| 0 <= i < r.len() ==> r[i].end <= t.len(),
{
    let mut r: Vec<FileSpan> = Vec::new();
    let mut p: usize = 0;
    while p < t.len()
        invariant
            t.len() < usize::MAX - 16,
            p <= t.len(),
            r@.map_values(|s: FileSpan| s@) + files_from(t@, p as int) == files_from(t@, 0),
            forall|i: int| 0 <= i < r.len() ==> r[i].end <= t.len(),
        decreases t.len() - p,
    {
        let ghost before = r@.map_values(|s: FileSpan| s@);
        match file_ref(t, p) {
            Some(s) => {
                r.push(s);
                assert(r@.map_values(|s: FileSpan| s@) =~= before.push(s@));
                assert(before.push(s@) + files_from(t@, s.end as int) =~= before + (seq![s@]
                    + files_from(t@, s.end as int)));
                p = s.end;
            },
            None => {
                p = p + 1;
            },
        }
    }
    assert(files_from(t@, p as int) =~= Seq::<FileRef>::empty());
    assert(r@.map_values(|s: FileSpan| s@) + Seq::<FileRef>::empty() =~= r@.map_values(|s: FileSpan| s@));
    r
}

} // verus!

verus! {

/// A region of content found by the scanner: its kind, its content (the
/// inner text of a block, or the path of a file) and its line range.
pub ghost struct Region {
    pub kind: ContentType,
    pub content: Seq<char>,
    pub range: (usize, usize),
}

/// The number written by the decimal digits `s`.
pub open spec fn digits_value(s: Seq<char>) -> nat
    decreases s.len(),
{
    if s.len() == 0 {
        0
    } else {
        digits_value(s.drop_last()) * 10 + ((s.last() as u32) as int - 48) as nat
    }
}

/// `a + b`, or `usize::MAX` where that is larger.
pub open spec fn sat_add(a: int, b: int) -> usize {
    if a + b <= usize::MAX {
        (a + b) as usize
    } else {
        usize::MAX
    }
}

/// The height of a fenced block: its explicit height where one is given and
/// fits, else one more than the line breaks of its inner text.
pub open spec fn fence_height(t: Seq<char>, f: Fence) -> int {
    let inferred = count_newlines(t.subrange(f.inner.0, f.inner.1)) as int + 1;
    match f.height {
        Some(d) => if digits_value(t.subrange(d.0, d.1)) <= usize::MAX {
            digits_value(t.subrange(d.0, d.1)) as int
        } else {
            inferred
        },
        None => inferred,
    }
}

/// The regions of the fenced blocks `fs` in order, leaving out empty ones;
/// or the keyword of the first block whose kind is unknown.
pub open spec fn fence_regions(t: Seq<char>, fs: Seq<Fence>) -> Result<Seq<Region>, Seq<char>>
    decreases fs.len(),
{
    if fs.len() == 0 {
        Ok(Seq::empty())
    } else {
        match fence_regions(t, fs.drop_last()) {
            Err(n) => Err(n),
            Ok(rs) => {
                let f = fs.last();
                let name = t.subrange(f.name.0, f.name.1);
                match fence_kind(name) {
                    None => Err(name),
                    Some(k) => if f.inner.0 == f.inner.1 {
                        Ok(rs)
                    } else {
                        let line = line_at(t, f.start);
                        Ok(
                            rs.push(
                                Region {
                                    kind: k,
                                    content: t.subrange(f.inner.0, f.inner.1),
                                    range: (line as usize, sat_add(line, fence_height(t, f))),
                                },
                            ),
                        )
                    },
                }
            },
        }
    }
}

/// The regions of the image links `fs` in order, leaving out empty paths. A
/// link stands on the line after its leading line break, and its height is
/// the number of line breaks that follow it, less one.
pub open spec fn file_regions(t: Seq<char>, fs: Seq<FileRef>) -> Seq<Region>
    decreases fs.len(),
{
    if fs.len() == 0 {
        Seq::empty()
    } else {
        let rs = file_regions(t, fs.drop_last());
        let f = fs.last();
        if f.path.0 == f.path.1 {
            rs
        } else {
            let line = line_at(t, f.start) + 1;
            let height = if f.newlines >= 1 {
                f.newlines - 1
            } else {
                0
            };
            rs.push(
                Region {
                    kind: ContentType::File,
                    content: t.subrange(f.path.0, f.path.1),
                    range: (line as usize, sat_add(line, height)),
                },
            )
        }
    }
}

/// All regions of a document: its fenced blocks, then its image links.
pub open spec fn scan_regions(t: Seq<char>) -> Result<Seq<Region>, Seq<char>> {
    match fence_regions(t, fences_from(t, 0)) {
        Err(n) => Err(n),
        Ok(rs) => Ok(rs + file_regions(t, files_from(t, 0))),
    }
}

/// A region found by the scanner.
pub struct RegionItem {
    pub kind: ContentType,
    pub content: String,
    pub range: (usize, usize),
}

impl View for RegionItem {
    type V = Region;

    open spec fn view(&self) -> Region {
        Region { kind: self.kind, content: self.content@, range: self.range }
    }
}

pub open spec fn regions_view(v: Seq<RegionItem>) -> Seq<Region> {
    v.map_values(|r: RegionItem| r@)
}

/// The number written by the digits at `[s, e)`, where it fits in a `usize`.
pub fn parse_digits(t: &Vec<char>, s: usize, e: usize) -> (r: Option<usize>)
    requires
        s <= e <= t.len(),
        forall|i: int| s <= i < e ==> in_class(CharClass::Digit, #[trigger] t@[i]),
    ensures
        digits_value(t@.subrange(s as int, e as int)) <= usize::MAX ==> r == Some(
            digits_value(t@.subrange(s as int, e as int)) as usize,
        ),
        digits_value(t@.subrange(s as int, e as int)) > usize::MAX ==> r is None,
{
    let mut acc: usize = 0;
    let mut over = false;
    let mut i = s;
    assert(t@.subrange(s as int, s as int) =~= Seq::<char>::empty());
    while i < e
        invariant
            s <= i <= e <= t.len(),
            forall|i: int| s <= i < e ==> in_class(CharClass::Digit, #[trigger] t@[i]),
            over ==> digits_value(t@.subrange(s as int, i as int)) > usize::MAX,
            !over ==> acc == digits_value(t@.subrange(s as int, i as int)),
        decreases e - i,
    {
        let ghost pre = t@.subrange(s as int, i as int);
        assert(t@.subrange(s as int, i + 1).drop_last() =~= pre);
        let d = (t[i] as u32 - 48) as usize;
        assert(in_class(CharClass::Digit, t@[i as int]));
        let ghost v = digits_value(pre);
        assert(digits_value(t@.subrange(s as int, i + 1)) == v * 10 + d);
        if !over {
            if acc > (usize::MAX - d) / 10 {
                over = true;
                assert(v * 10 + d > usize::MAX) by (nonlinear_arith)
                    requires
                        v == acc,
                        acc > (usize::MAX - d) / 10,
                        d <= 9,
                ;
            } else {
                assert(acc * 10 + d <= usize::MAX) by (nonlinear_arith)
                    requires
                        acc <= (usize::MAX - d) / 10,
                        d <= 9,
                ;
                acc = acc * 10 + d;
            }
        } else {
            assert(v * 10 + d >= v) by (nonlinear_arith)
                requires
                    v >= 0,
                    d >= 0,
            ;
        }
        i = i + 1;
    }
    if over {
        None
    } else {
        Some(acc)
    }
}

/// Number of line breaks at `[s, e)`.
fn count_breaks(t: &Vec<char>, s: usize, e: usize) -> (r: usize)
    requires
        s <= e <= t.len(),
    ensures
        r == count_newlines(t@.subrange(s as int, e as int)),
{
    let mut n: usize = 0;
    let mut i = s;
    assert(t@.subrange(s as int, s as int) =~= Seq::<char>::empty());
    while i < e
        invariant
            s <= i <= e <= t.len(),
            n == count_newlines(t@.subrange(s as int, i as int)),
            n <= i - s,
        decreases e - i,
    {
        assert(t@.subrange(s as int, i + 1).drop_last() =~= t@.subrange(s as int, i as int));
        if t[i] == '\n' {
            n = n + 1;
        }
        i = i + 1;
    }
    n
}

/// `a + b`, saturating at `usize::MAX`.
pub fn add_sat(a: usize, b: usize) -> (r: usize)
    ensures
        r == sat_add(a as int, b as int),
{
    if b > usize::MAX - a {
        usize::MAX
    } else {
        a + b
    }
}

/// The regions of all fenced blocks and image links of `text`, fenced
/// blocks first, each group in document order. A block of unknown kind is
/// an error that names its keyword.
pub fn regions(text: &str, t: &Vec<char>, lines: &Vec<usize>) -> (r: Result<Vec<RegionItem>, Error>)
    requires
        t@ == text@,
        t.len() < usize::MAX - 16,
        lines.len() == t.len() + 1,
        forall|i: int| 0 <= i <= t.len() ==> lines[i] == line_at(t@, i),
    ensures
        match scan_regions(t@) {
            Ok(rs) => r is Ok && regions_view(r->Ok_0@) == rs,
            Err(n) => r matches Err(Error::UnknownFence(s)) && s@ == n,
        },
        r is Ok ==> forall|i: int|
            0 <= i < r->Ok_0@.len() ==> 1 <= (#[trigger] r->Ok_0@[i]).range.0 <= r->Ok_0@[i].range.1,
{
    let fs = fences(t);
    let ghost fview = fs@.map_values(|s: FenceSpan| s@);
    let mut out: Vec<RegionItem> = Vec::new();
    let mut i: usize = 0;
    assert(fview.subrange(0, 0) =~= Seq::<Fence>::empty());
    assert(regions_view(out@) =~= Seq::<Region>::empty());
    proof {
        lemma_fences_are_hits(t@, 0);
        lemma_files_are_hits(t@, 0);
    }
    while i < fs.len()
        invariant
            t@ == text@,
            t.len() < usize::MAX - 16,
            lines.len() == t.len() + 1,
            forall|i: int| 0 <= i <= t.len() ==> lines[i] == line_at(t@, i),
            fview == fs@.map_values(|s: FenceSpan| s@),
            fview == fences_from(t@, 0),
            forall|i: int| 0 <= i < fview.len() ==> fence_at(t@, #[trigger] fview[i].start) == Some(fview[i]),
            forall|i: int| 0 <= i < fs.len() ==> fs[i].end <= t.len(),
            i <= fs.len(),
            fence_regions(t@, fview.subrange(0, i as int)) == Ok::<Seq<Region>, Seq<char>>(
                regions_view(out@),
            ),
            forall|i: int| 0 <= i < out@.len() ==> 1 <= (#[trigger] out@[i]).range.0 <= out@[i].range.1,
        decreases fs.len() - i,
    {
        let f = fs[i];
        assert(fview.subrange(0, i + 1).drop_last() =~= fview.subrange(0, i as int));
        assert(fview.subrange(0, i + 1).last() == f@);
        proof {
            lemma_fence_shape(t@, f@);
        }
        let name = text.substring_char(f.name.0, f.name.1);
        let kind = match ContentType::from_fence(name) {
            Ok(k) => k,
            Err(e) => {
                proof {
                    lemma_fence_regions_err(t@, fview, i as int + 1);
                }
                return Err(e);
            },
        };
        if f.inner.0 < f.inner.1 {
            let content = String::from_str(text.substring_char(f.inner.0, f.inner.1));
            let inferred = count_breaks(t, f.inner.0, f.inner.1);
            proof {
                lemma_count_newlines_bound(t@.subrange(f.inner.0 as int, f.inner.1 as int));
            }
            let inferred = inferred + 1;
            let height = match f.height {
                Some(d) => match parse_digits(t, d.0, d.1) {
                    Some(v) => v,
                    None => inferred,
                },
                None => inferred,
            };
            let line = lines[f.start];
            let item = RegionItem { kind, content, range: (line, add_sat(line, height)) };
            let ghost before = regions_view(out@);
            out.push(item);
            assert(regions_view(out@) =~= before.push(item@));
        }
        i = i + 1;
    }
    assert(fview.subrange(0, fs.len() as int) =~= fview);
    let fence_count = out.len();
    let ghost fence_view = regions_view(out@);
    let gs = file_refs(t);
    let ghost gview = gs@.map_values(|s: FileSpan| s@);
    let mut j: usize = 0;
    assert(gview.subrange(0, 0) =~= Seq::<FileRef>::empty());
    assert(fence_view + file_regions(t@, gview.subrange(0, 0)) =~= fence_view);
    while j < gs.len()
        invariant
            t@ == text@,
            t.len() < usize::MAX - 16,
            lines.len() == t.len() + 1,
            forall|i: int| 0 <= i <= t.len() ==> lines[i] == line_at(t@, i),
            gview == gs@.map_values(|s: FileSpan| s@),
            gview == files_from(t@, 0),
            forall|i: int| 0 <= i < gview.len() ==> file_at(t@, #[trigger] gview[i].start) == Some(gview[i]),
            forall|i: int| 0 <= i < gs.len() ==> gs[i].end <= t.len(),
            j <= gs.len(),
            regions_view(out@) == fence_view + file_regions(t@, gview.subrange(0, j as int)),
            forall|i: int| 0 <= i < out@.len() ==> 1 <= (#[trigger] out@[i]).range.0 <= out@[i].range.1,
        decreases gs.len() - j,
    {
        let g = gs[j];
        assert(gview.subrange(0, j + 1).drop_last() =~= gview.subrange(0, j as int));
        assert(gview.subrange(0, j + 1).last() == g@);
        proof {
            lemma_file_shape(t@, g@);
            lemma_count_newlines_bound(t@.subrange(0, g.start as int));
        }
        if g.path.0 < g.path.1 {
            let content = String::from_str(text.substring_char(g.path.0, g.path.1));
            let line = lines[g.start] + 1;
            let height = if g.newlines >= 1 {
                g.newlines - 1
            } else {
                0
            };
            let item = RegionItem {
                kind: ContentType::File,
                content,
                range: (line, add_sat(line, height)),
            };
            let ghost before = regions_view(out@);
            out.push(item);
            assert(regions_view(out@) =~= before.push(item@));
        }
        j = j + 1;
    }
    assert(gview.subrange(0, gs.len() as int) =~= gview);
    Ok(out)
}

proof fn lemma_skip_bounds(t: Seq<char>, p: int, k: CharClass)
    requires
        0 <= p <= t.len(),
    ensures
        p <= skip_class(t, p, k) <= t.len(),
        forall|i: int| p <= i < skip_class(t, p, k) ==> in_class(k, #[trigger] t[i]),
    decreases t.len() - p,
{
    if p < t.len() && in_class(k, t[p]) {
        lemma_skip_bounds(t, p + 1, k);
    }
}

/// The parts of a fenced block lie in order within the text, and its height
/// directive is made of digits.
proof fn lemma_fence_shape(t: Seq<char>, f: Fence)
    requires
        fence_at(t, f.start) == Some(f),
    ensures
        0 <= f.start < f.name.0 <= f.name.1 <= f.inner.0 <= f.inner.1 <= f.end <= t.len(),
        f.start + 1 < t.len(),
        f.height matches Some(d) ==> 0 <= d.0 <= d.1 <= t.len() && forall|i: int|
            d.0 <= i < d.1 ==> in_class(CharClass::Digit, #[trigger] t[i]),
{
    let q = f.start;
    let ns = q + 3;
    lemma_skip_bounds(t, ns, CharClass::Lower);
    let ne = skip_class(t, ns, CharClass::Lower);
    let ds = ne + 8;
    if ds <= t.len() {
        lemma_skip_bounds(t, ds, CharClass::Digit);
        let de = skip_class(t, ds, CharClass::Digit);
        if key_at(t, ne) && de > ds {
            lemma_skip_bounds(t, de, CharClass::Word);
        }
    }
    lemma_skip_bounds(t, ne, CharClass::Word);
    let we = if f.height is Some {
        skip_class(t, skip_class(t, ds, CharClass::Digit), CharClass::Word)
    } else {
        skip_class(t, ne, CharClass::Word)
    };
    lemma_next_ticks(t, we + 2);
}

proof fn lemma_file_shape(t: Seq<char>, f: FileRef)
    requires
        file_at(t, f.start) == Some(f),
    ensures
        0 <= f.start < f.path.0 <= f.path.1 < f.end <= t.len(),
        f.start + 1 < t.len(),
        f.newlines >= 0,
{
    let q = f.start;
    lemma_skip_bounds(t, q + 3, CharClass::NotCloseBracket);
    let a = skip_class(t, q + 3, CharClass::NotCloseBracket);
    lemma_skip_bounds(t, a + 2, CharClass::PathChar);
    let b = skip_class(t, a + 2, CharClass::PathChar);
    lemma_skip_bounds(t, b + 1, CharClass::Newline);
}

proof fn lemma_fences_are_hits(t: Seq<char>, p: int)
    ensures
        forall|i: int|
            0 <= i < fences_from(t, p).len() ==> fence_at(t, #[trigger] fences_from(t, p)[i].start)
                == Some(fences_from(t, p)[i]),
    decreases t.len() - p,
{
    if 0 <= p < t.len() {
        match fence_at(t, p) {
            Some(f) => if p < f.end <= t.len() {
                lemma_fences_are_hits(t, f.end);
                let s = fences_from(t, p);
                assert forall|i: int| 0 <= i < s.len() implies fence_at(t, #[trigger] s[i].start)
                    == Some(s[i]) by {
                    if i > 0 {
                        assert(s[i] == fences_from(t, f.end)[i - 1]);
                    }
                }
            },
            None => lemma_fences_are_hits(t, p + 1),
        }
    }
}

proof fn lemma_files_are_hits(t: Seq<char>, p: int)
    ensures
        forall|i: int|
            0 <= i < files_from(t, p).len() ==> file_at(t, #[trigger] files_from(t, p)[i].start)
                == Some(files_from(t, p)[i]),
    decreases t.len() - p,
{
    if 0 <= p < t.len() {
        match file_at(t, p) {
            Some(f) => if p < f.end <= t.len() {
                lemma_files_are_hits(t, f.end);
                let s = files_from(t, p);
                assert forall|i: int| 0 <= i < s.len() implies file_at(t, #[trigger] s[i].start)
                    == Some(s[i]) by {
                    if i > 0 {
                        assert(s[i] == files_from(t, f.end)[i - 1]);
                    }
                }
            },
            None => lemma_files_are_hits(t, p + 1),
        }
    }
}

/// Once a block of unknown kind is met, the regions are that error.
proof fn lemma_fence_regions_err(t: Seq<char>, fs: Seq<Fence>, n: int)
    requires
        0 < n <= fs.len(),
        fence_regions(t, fs.subrange(0, n - 1)) is Ok,
        fence_kind(t.subrange(fs[n - 1].name.0, fs[n - 1].name.1)) is None,
    ensures
        fence_regions(t, fs) == Err::<Seq<Region>, Seq<char>>(
            t.subrange(fs[n - 1].name.0, fs[n - 1].name.1),
        ),
    decreases fs.len() - n,
{
    if n == fs.len() {
        assert(fs.subrange(0, n - 1) =~= fs.drop_last());
    } else {
        assert(fs.drop_last().subrange(0, n - 1) =~= fs.subrange(0, n - 1));
        lemma_fence_regions_err(t, fs.drop_last(), n);
    }
}

} // verus!
