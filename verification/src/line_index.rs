//! Conversion between byte offsets and editor positions (zero-based line,
//! and column counted in UTF-16 code units as the Language Server Protocol
//! counts them).

use vstd::prelude::*;
use vstd::string::StringSliceAdditionalSpecFns;

use crate::bytes::LINE_FEED;
use crate::scan::{opt_int, ByteRange};

verus! {

/// A zero-based line and a UTF-16 column within that line.
#[derive(Clone, Copy, Debug, PartialEq, Eq, Structural)]
pub struct Position {
    pub line: u32,
    pub character: u32,
}

impl Default for Position {
    fn default() -> (r: Self)
        ensures
            r.line == 0 && r.character == 0,
    {
        Position { line: 0, character: 0 }
    }
}

/// A span between two positions.
#[derive(Clone, Copy, Debug, PartialEq, Eq, Structural)]
pub struct Range {
    pub start: Position,
    pub end: Position,
}

/// The longest text, in bytes, whose positions the index computes: columns
/// and line numbers then fit in `u32` and offset sums in `usize`.
pub const MAX_TEXT_LEN: usize = 0x7fff_ffff;

/// Whether a byte continues a multi-byte UTF-8 sequence.
pub open spec fn is_continuation(x: u8) -> bool {
    0x80 <= x < 0xc0
}

/// Whether `o` is where a character of `b` starts, or at or past its end:
/// the offsets at which the text can be cut.
pub open spec fn on_char_boundary(b: Seq<u8>, o: int) -> bool {
    o >= b.len() || !is_continuation(b[o])
}

/// Whether offset `o` of `b` is a place where the text can be cut.
pub fn at_char_boundary(b: &[u8], o: usize) -> (r: bool)
    ensures
        r == on_char_boundary(b@, o as int),
{
    o >= b.len() || !(0x80 <= b[o] && b[o] < 0xc0)
}

/// UTF-16 code units of the character that a UTF-8 byte starts: none for a
/// continuation byte, two for the lead byte of a four-byte sequence, else one.
pub open spec fn utf16_unit(x: u8) -> int {
    if is_continuation(x) {
        0
    } else if x >= 0xf0 {
        2
    } else {
        1
    }
}

/// The length in UTF-16 code units of the text that a UTF-8 buffer encodes.
pub open spec fn utf16_units(s: Seq<u8>) -> int
    decreases s.len(),
{
    if s.len() == 0 {
        0
    } else {
        utf16_units(s.drop_last()) + utf16_unit(s.last())
    }
}

/// Number of line feeds in `s`.
pub open spec fn count_newlines(s: Seq<u8>) -> int
    decreases s.len(),
{
    if s.len() == 0 {
        0
    } else {
        count_newlines(s.drop_last()) + if s.last() == LINE_FEED {
            1int
        } else {
            0int
        }
    }
}

/// The offset at which the line that holds offset `m` starts: just past the
/// last line feed before `m`, or 0.
pub open spec fn line_start_before(b: Seq<u8>, m: int) -> int
    decreases m,
{
    if m <= 0 {
        0
    } else if b[m - 1] == LINE_FEED {
        m
    } else {
        line_start_before(b, m - 1)
    }
}

/// The start offset of every line, in order: 0, then one past each line feed.
pub open spec fn spec_line_starts(b: Seq<u8>) -> Seq<usize>
    decreases b.len(),
{
    if b.len() == 0 {
        seq![0usize]
    } else if b.last() == LINE_FEED {
        spec_line_starts(b.drop_last()).push(b.len() as usize)
    } else {
        spec_line_starts(b.drop_last())
    }
}

/// The position of byte offset `offset` (clamped to the text's end): the
/// number of line feeds before it, and the UTF-16 length of the text between
/// the start of its line and it.
pub open spec fn spec_position(b: Seq<u8>, offset: int) -> Position {
    let off = if offset < b.len() {
        offset
    } else {
        b.len() as int
    };
    Position {
        line: count_newlines(b.take(off)) as u32,
        character: utf16_units(b.subrange(line_start_before(b, off), off)) as u32,
    }
}

pub open spec fn spec_range(b: Seq<u8>, r: ByteRange) -> Range {
    Range { start: spec_position(b, r.start as int), end: spec_position(b, r.end as int) }
}

/// Walking the characters of one line from `p` (before `end`) with `u`
/// UTF-16 units already passed: the offset of the character at column
/// `ch`, or of the character that column `ch` falls inside, or `end`.
pub open spec fn spec_offset_scan(b: Seq<u8>, p: int, end: int, u: int, ch: int) -> int
    decreases end - p,
{
    if p < 0 || p >= end || p >= b.len() {
        end
    } else if is_continuation(b[p]) {
        spec_offset_scan(b, p + 1, end, u, ch)
    } else if u == ch {
        p
    } else if u + utf16_unit(b[p]) > ch {
        p
    } else {
        spec_offset_scan(b, p + 1, end, u + utf16_unit(b[p]), ch)
    }
}

/// The byte offset of a position: `None` past the last line; a column past
/// the end of its line gives the offset where the next line starts (or
/// the text's end).
pub open spec fn spec_offset(b: Seq<u8>, pos: Position) -> Option<int> {
    let starts = spec_line_starts(b);
    let line = pos.line as int;
    if line >= starts.len() {
        None
    } else {
        let line_end = if line + 1 < starts.len() {
            starts[line + 1] as int
        } else {
            b.len() as int
        };
        Some(spec_offset_scan(b, starts[line] as int, line_end, 0, pos.character as int))
    }
}

proof fn lemma_count_newlines_bound(s: Seq<u8>)
    ensures
        0 <= count_newlines(s) <= s.len(),
    decreases s.len(),
{
    if s.len() > 0 {
        lemma_count_newlines_bound(s.drop_last());
    }
}

proof fn lemma_utf16_units_bound(s: Seq<u8>)
    ensures
        0 <= utf16_units(s) <= 2 * s.len(),
    decreases s.len(),
{
    if s.len() > 0 {
        lemma_utf16_units_bound(s.drop_last());
    }
}

/// The line starts of a prefix: one more than its line feeds, the last is
/// where the prefix's last line starts, and none lies past the prefix.
proof fn lemma_line_starts_prefix(b: Seq<u8>, m: int)
    requires
        0 <= m <= b.len() <= usize::MAX,
    ensures
        spec_line_starts(b.take(m)).len() == count_newlines(b.take(m)) + 1,
        spec_line_starts(b.take(m)).last() == line_start_before(b, m),
        forall|k: int|
            0 <= k < spec_line_starts(b.take(m)).len() ==> spec_line_starts(b.take(m))[k] <= m,
    decreases m,
{
    if m > 0 {
        lemma_line_starts_prefix(b, m - 1);
        assert(b.take(m).drop_last() =~= b.take(m - 1));
        assert(b.take(m).last() == b[m - 1]);
        if b[m - 1] == LINE_FEED {
            assert(spec_line_starts(b.take(m)) == spec_line_starts(b.take(m - 1)).push(
                m as usize,
            ));
        } else {
            assert(spec_line_starts(b.take(m)) == spec_line_starts(b.take(m - 1)));
        }
    } else {
        assert(b.take(m) =~= Seq::<u8>::empty());
        assert(spec_line_starts(b.take(m)) == seq![0usize]);
    }
}

/// The line starts of the whole text extend those of any prefix `b[..m]`
/// with entries past `m` only.
proof fn lemma_line_starts_extend(b: Seq<u8>, m: int)
    requires
        0 <= m <= b.len() <= usize::MAX,
    ensures
        spec_line_starts(b.take(m)).len() <= spec_line_starts(b).len(),
        forall|k: int|
            0 <= k < spec_line_starts(b.take(m)).len() ==> spec_line_starts(b)[k]
                == spec_line_starts(b.take(m))[k],
        forall|k: int|
            spec_line_starts(b.take(m)).len() <= k < spec_line_starts(b).len()
                ==> spec_line_starts(b)[k] > m,
        forall|k: int| 0 <= k < spec_line_starts(b).len() ==> spec_line_starts(b)[k] <= b.len(),
    decreases b.len() - m,
{
    if m == b.len() {
        assert(b.take(m) =~= b);
        lemma_line_starts_prefix(b, m);
    } else {
        lemma_line_starts_extend(b, m + 1);
        let p = spec_line_starts(b.take(m));
        let q = spec_line_starts(b.take(m + 1));
        assert(b.take(m + 1).drop_last() =~= b.take(m));
        assert(b.take(m + 1).last() == b[m]);
        if b[m] == LINE_FEED {
            assert(b.take(m + 1).len() == m + 1);
            assert(q == p.push((m + 1) as usize));
            assert(q[p.len() as int] == m + 1);
            assert(spec_line_starts(b)[p.len() as int] == m + 1);
        } else {
            assert(q == p);
        }
    }
}

/// Lines and their start offsets for one text.
pub struct LineIndex<'a> {
    text: &'a [u8],
    line_starts: Vec<usize>,
}

impl<'a> LineIndex<'a> {
    /// The indexed text, as UTF-8 bytes.
    pub closed spec fn text(&self) -> Seq<u8> {
        self.text@
    }

    pub closed spec fn wf(&self) -> bool {
        &&& self.line_starts@ == spec_line_starts(self.text@)
        &&& self.text@.len() <= MAX_TEXT_LEN
    }

    pub fn new(text: &'a str) -> (r: Self)
        requires
            text.spec_bytes().len() <= MAX_TEXT_LEN,
        ensures
            r.wf(),
            r.text() == text.spec_bytes(),
    {
        Self::from_bytes(text.as_bytes())
    }

    pub fn from_bytes(b: &'a [u8]) -> (r: Self)
        requires
            b@.len() <= MAX_TEXT_LEN,
        ensures
            r.wf(),
            r.text() == b@,
    {
        let mut line_starts: Vec<usize> = Vec::new();
        line_starts.push(0);
        let mut i: usize = 0;
        assert(b@.take(0) =~= Seq::<u8>::empty());
        while i < b.len()
            invariant
                i <= b@.len(),
                line_starts@ == spec_line_starts(b@.take(i as int)),
            decreases b@.len() - i,
        {
            assert(b@.take(i + 1).drop_last() =~= b@.take(i as int));
            if b[i] == LINE_FEED {
                line_starts.push(i + 1);
            }
            i = i + 1;
        }
        assert(b@.take(b@.len() as int) =~= b@);
        LineIndex { text: b, line_starts }
    }

    /// The line that holds offset `off`: the last line start at or before it.
    fn line_of(&self, off: usize) -> (l: usize)
        requires
            self.wf(),
            off <= self.text@.len(),
        ensures
            l == count_newlines(self.text@.take(off as int)),
            l < self.line_starts@.len(),
            self.line_starts@[l as int] == line_start_before(self.text@, off as int),
            self.line_starts@[l as int] <= off,
    {
        let ghost b = self.text@;
        proof {
            lemma_line_starts_prefix(b, off as int);
            lemma_line_starts_extend(b, off as int);
            lemma_count_newlines_bound(b.take(off as int));
            assert(self.line_starts@[0] == spec_line_starts(b.take(off as int))[0]);
        }
        let ghost c = count_newlines(b.take(off as int));
        let n = self.line_starts.len();
        let mut lo: usize = 0;
        let mut hi: usize = n;
        while hi - lo > 1
            invariant
                0 <= lo < hi <= n,
                n == self.line_starts@.len(),
                self.line_starts@[lo as int] <= off,
                hi < n ==> self.line_starts@[hi as int] > off,
                self.wf(),
                b == self.text@,
                c + 1 <= n,
                forall|k: int| 0 <= k <= c ==> self.line_starts@[k] <= off,
                forall|k: int| c < k < n ==> self.line_starts@[k] > off,
            decreases hi - lo,
        {
            let mid = lo + (hi - lo) / 2;
            if self.line_starts[mid] <= off {
                lo = mid;
            } else {
                hi = mid;
            }
        }
        lo
    }

    fn utf16_len(&self, start: usize, end: usize) -> (u: u32)
        requires
            self.wf(),
            start <= end <= self.text@.len(),
        ensures
            u == utf16_units(self.text@.subrange(start as int, end as int)),
    {
        let mut u: u32 = 0;
        let mut p = start;
        while p < end
            invariant
                start <= p <= end <= self.text@.len(),
                self.wf(),
                u == utf16_units(self.text@.subrange(start as int, p as int)),
            decreases end - p,
        {
            proof {
                assert(self.text@.subrange(start as int, p + 1).drop_last() =~= self.text@.subrange(
                    start as int,
                    p as int,
                ));
                lemma_utf16_units_bound(self.text@.subrange(start as int, p as int));
            }
            let x = self.text[p];
            if x >= 0x80 && x < 0xc0 {
            } else if x >= 0xf0 {
                u = u + 2;
            } else {
                u = u + 1;
            }
            p = p + 1;
        }
        u
    }

    /// The position of a byte offset; offsets past the end count as the end.
    /// The offset must not fall inside a character.
    pub fn position(&self, offset: usize) -> (r: Position)
        requires
            self.wf(),
            on_char_boundary(self.text(), offset as int),
        ensures
            r == spec_position(self.text(), offset as int),
    {
        let off = if offset < self.text.len() {
            offset
        } else {
            self.text.len()
        };
        let line = self.line_of(off);
        let line_start = self.line_starts[line];
        let character = self.utf16_len(line_start, off);
        proof {
            lemma_count_newlines_bound(self.text@.take(off as int));
        }
        Position { line: line as u32, character }
    }

    /// The positions of both ends of a span; neither may fall inside a
    /// character.
    pub fn range(&self, range: ByteRange) -> (r: Range)
        requires
            self.wf(),
            on_char_boundary(self.text(), range.start as int),
            on_char_boundary(self.text(), range.end as int),
        ensures
            r == spec_range(self.text(), range),
    {
        Range { start: self.position(range.start), end: self.position(range.end) }
    }

    /// The byte offset of a position, if its line exists.
    pub fn offset(&self, position: Position) -> (r: Option<usize>)
        requires
            self.wf(),
        ensures
            opt_int(r) == spec_offset(self.text(), position),
    {
        let ghost b = self.text@;
        proof {
            lemma_line_starts_extend(b, b.len() as int);
        }
        let line = position.line as usize;
        if line >= self.line_starts.len() {
            return None;
        }
        let line_start = self.line_starts[line];
        let line_end = if self.line_starts.len() - line > 1 {
            self.line_starts[line + 1]
        } else {
            self.text.len()
        };
        let ch = position.character as u64;
        let mut u: u64 = 0;
        let mut p = line_start;
        while p < line_end
            invariant
                line_start <= p,
                line_end <= b.len(),
                b == self.text@,
                u <= ch,
                ch <= u32::MAX,
                spec_offset(b, position) == Some(
                    spec_offset_scan(b, line_start as int, line_end as int, 0, ch as int),
                ),
                spec_offset_scan(b, p as int, line_end as int, u as int, ch as int)
                    == spec_offset_scan(b, line_start as int, line_end as int, 0, ch as int),
            decreases line_end - p,
        {
            let x = self.text[p];
            if x >= 0x80 && x < 0xc0 {
                p = p + 1;
                continue ;
            }
            if u == ch {
                return Some(p);
            }
            let w: u64 = if x >= 0xf0 {
                2
            } else {
                1
            };
            u = u + w;
            if u > ch {
                return Some(p);
            }
            p = p + 1;
        }
        Some(line_end)
    }
}


/// Each character start in `b[s..q]` adds at least one UTF-16 unit.
proof fn lemma_units_grow(b: Seq<u8>, s: int, p: int, q: int)
    requires
        0 <= s <= p < q <= b.len(),
    ensures
        utf16_units(b.subrange(s, q)) >= utf16_units(b.subrange(s, p)) + utf16_unit(b[p]),
    decreases q - p,
{
    assert(b.subrange(s, q).drop_last() =~= b.subrange(s, q - 1));
    assert(b.subrange(s, q).last() == b[q - 1]);
    if q - 1 > p {
        lemma_units_grow(b, s, p, q - 1);
    } else {
        assert(b.subrange(s, p + 1).drop_last() =~= b.subrange(s, p));
    }
}

/// The line of offset `o` starts at or before it, and the next line (if
/// any) starts after it.
proof fn lemma_line_bounds(b: Seq<u8>, o: int)
    requires
        0 <= o <= b.len() <= usize::MAX,
    ensures
        ({
            let starts = spec_line_starts(b);
            let l = count_newlines(b.take(o));
            &&& 0 <= l < starts.len()
            &&& starts[l] == line_start_before(b, o)
            &&& line_start_before(b, o) <= o
            &&& l + 1 < starts.len() ==> starts[l + 1] > o
            &&& l + 1 < starts.len() ==> starts[l + 1] <= b.len()
        }),
{
    lemma_line_starts_prefix(b, o);
    lemma_line_starts_extend(b, o);
    lemma_count_newlines_bound(b.take(o));
    let p = spec_line_starts(b.take(o));
    assert(spec_line_starts(b)[p.len() - 1] == p[p.len() - 1]);
}

/// Walking a line from a character start `p` at or before `o`, with the
/// units so far counted, reaches exactly `o` when the column is that of `o`.
proof fn lemma_scan_reaches(b: Seq<u8>, s: int, p: int, o: int, end: int)
    requires
        0 <= s <= p <= o <= end <= b.len(),
        o < b.len() ==> !is_continuation(b[o]),
        o == end ==> end == b.len() || !is_continuation(b[o]),
    ensures
        spec_offset_scan(
            b,
            p,
            end,
            utf16_units(b.subrange(s, p)),
            utf16_units(b.subrange(s, o)),
        ) == o,
    decreases o - p,
{
    let ch = utf16_units(b.subrange(s, o));
    let u = utf16_units(b.subrange(s, p));
    if p < o {
        assert(b.subrange(s, p + 1).drop_last() =~= b.subrange(s, p));
        assert(b.subrange(s, p + 1).last() == b[p]);
        if is_continuation(b[p]) {
            lemma_scan_reaches(b, s, p + 1, o, end);
        } else {
            lemma_units_grow(b, s, p, o);
            if p + 1 < o {
                lemma_units_grow(b, s, p + 1, o);
            }
            lemma_scan_reaches(b, s, p + 1, o, end);
        }
    } else {
        if o < end {
            assert(!is_continuation(b[o]));
        }
    }
}

/// Byte offsets survive the trip to a position and back: for an offset at
/// the start of a character (or at the end of the text), the offset of its
/// position is the offset itself.
pub proof fn law_offset_of_position(b: Seq<u8>, o: int)
    requires
        0 <= o <= b.len(),
        b.len() <= MAX_TEXT_LEN,
        on_char_boundary(b, o),
    ensures
        spec_offset(b, spec_position(b, o)) == Some(o),
{
    lemma_line_bounds(b, o);
    lemma_count_newlines_bound(b.take(o));
    let starts = spec_line_starts(b);
    let l = count_newlines(b.take(o));
    let s = line_start_before(b, o);
    lemma_utf16_units_bound(b.subrange(s, o));
    let pos = spec_position(b, o);
    assert(pos.line as int == l);
    assert(pos.character as int == utf16_units(b.subrange(s, o)));
    let end = if l + 1 < starts.len() {
        starts[l + 1] as int
    } else {
        b.len() as int
    };
    if l + 1 >= starts.len() {
        lemma_line_starts_extend(b, b.len() as int);
    }
    assert(b.subrange(s, s) =~= Seq::<u8>::empty());
    lemma_scan_reaches(b, s, s, o, end);
}

} // verus!
