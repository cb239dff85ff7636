//! Rust-aware byte scanning: whitespace, string literals, comments, balanced
//! delimiters, and the search for `render!`, `css!` and `global_css!`
//! invocations.

use vstd::prelude::*;
use vstd::math::{max, min};
use vstd::string::StringSliceAdditionalSpecFns;

use crate::bytes::{
    is_ident_continue, is_ident_start, spec_is_ident_continue, spec_is_ident_start, BANG,
    GREATER_THAN, LEFT_BRACE, LEFT_BRACKET, LEFT_PAREN, RIGHT_BRACE, RIGHT_BRACKET, RIGHT_PAREN,
    is_ascii_ws, spec_is_ascii_ws, BACKSLASH, DOUBLE_QUOTE, LINE_FEED, SINGLE_QUOTE, SLASH, STAR,
};

verus! {

/// An optional index, as a mathematical integer.
pub open spec fn opt_int(o: Option<usize>) -> Option<int> {
    match o {
        Some(v) => Some(v as int),
        None => None,
    }
}

/// A half-open span `start..end` of byte offsets into a source text.
#[derive(Clone, Copy, Debug, PartialEq, Eq, Structural)]
pub struct ByteRange {
    pub start: usize,
    pub end: usize,
}

impl ByteRange {
    pub fn new(start: usize, end: usize) -> (r: Self)
        ensures
            r.start == start,
            r.end == end,
    {
        ByteRange { start, end }
    }

    /// Whether `offset` lies in the span, both ends included.
    pub open spec fn spec_contains(self, offset: int) -> bool {
        self.start <= offset <= self.end
    }

    pub fn contains(self, offset: usize) -> (r: bool)
        ensures
            r == self.spec_contains(offset as int),
    {
        self.start <= offset && offset <= self.end
    }
}

/// Which Crustal macro an invocation names.
#[derive(Clone, Copy, Debug, PartialEq, Eq, Structural)]
pub enum MacroKind {
    Render,
    Css,
    GlobalCss,
}

/// One macro invocation found in a source text.
#[derive(Clone, Copy, Debug)]
pub struct MacroInvocation {
    pub kind: MacroKind,
    /// The macro's name, without the `!`.
    pub name_range: ByteRange,
    /// Between the opening delimiter and the closing one (or the end of the
    /// text when the invocation is not closed).
    pub body: ByteRange,
    /// From the name to just past the closing delimiter (or the end of the text).
    pub whole: ByteRange,
    /// Whether the closing delimiter was found.
    pub closed: bool,
}

/// Index of the first byte at or after `i` and before `end` that is not
/// ASCII whitespace (`i` itself when `i >= end`).
pub open spec fn spec_skip_ws_until(b: Seq<u8>, i: int, end: int) -> int
    decreases end - i,
{
    if 0 <= i < end && i < b.len() && spec_is_ascii_ws(b[i]) {
        spec_skip_ws_until(b, i + 1, end)
    } else {
        i
    }
}

pub fn skip_ws_until(b: &[u8], i: usize, end: usize) -> (r: usize)
    requires
        end <= b@.len(),
    ensures
        r == spec_skip_ws_until(b@, i as int, end as int),
        i <= r,
        i <= end ==> r <= end,
{
    let mut j = i;
    while j < end && is_ascii_ws(b[j])
        invariant
            i <= j,
            i <= end ==> j <= end,
            end <= b@.len(),
            spec_skip_ws_until(b@, j as int, end as int) == spec_skip_ws_until(
                b@,
                i as int,
                end as int,
            ),
        decreases end - j,
    {
        j = j + 1;
    }
    j
}

/// `skip_ws_until` up to the end of the text.
pub fn skip_ws(b: &[u8], i: usize) -> (r: usize)
    ensures
        r == spec_skip_ws_until(b@, i as int, b@.len() as int),
        i <= r,
        i <= b@.len() ==> r <= b@.len(),
{
    skip_ws_until(b, i, b.len())
}

/// Scanning a string literal whose quote is `quote` from index `i`: the
/// index just past the closing quote; a backslash skips the next byte.
pub open spec fn spec_scan_string_from(b: Seq<u8>, quote: u8, i: int) -> Option<int>
    decreases b.len() - i,
{
    if i < 0 || i >= b.len() {
        None
    } else if b[i] == BACKSLASH {
        if i + 2 <= b.len() {
            spec_scan_string_from(b, quote, i + 2)
        } else {
            None
        }
    } else if b[i] == quote {
        Some(i + 1)
    } else {
        spec_scan_string_from(b, quote, i + 1)
    }
}

/// The end of the string literal that opens at `start` (the quote there
/// decides which quote closes it), or `None` when it never closes.
pub open spec fn spec_scan_string(b: Seq<u8>, start: int) -> Option<int> {
    spec_scan_string_from(b, b[start], start + 1)
}

pub proof fn lemma_scan_string_from_bounds(b: Seq<u8>, quote: u8, i: int)
    requires
        0 <= i,
    ensures
        spec_scan_string_from(b, quote, i) matches Some(r) ==> i < r <= b.len(),
    decreases b.len() - i,
{
    if 0 <= i < b.len() {
        if b[i] == BACKSLASH {
            if i + 2 <= b.len() {
                lemma_scan_string_from_bounds(b, quote, i + 2);
            }
        } else if b[i] != quote {
            lemma_scan_string_from_bounds(b, quote, i + 1);
        }
    }
}

/// A string literal ends just past its closing quote.
pub proof fn lemma_scan_string_from_quote(b: Seq<u8>, quote: u8, i: int)
    requires
        0 <= i,
    ensures
        spec_scan_string_from(b, quote, i) matches Some(r) ==> i < r <= b.len() && b[r - 1]
            == quote,
    decreases b.len() - i,
{
    if 0 <= i < b.len() {
        if b[i] == BACKSLASH {
            if i + 2 <= b.len() {
                lemma_scan_string_from_quote(b, quote, i + 2);
            }
        } else if b[i] != quote {
            lemma_scan_string_from_quote(b, quote, i + 1);
        }
    }
}

pub fn scan_string(b: &[u8], start: usize) -> (r: Option<usize>)
    requires
        start < b@.len(),
    ensures
        opt_int(r) == spec_scan_string(b@, start as int),
        r matches Some(v) ==> start < v <= b@.len(),
{
    let quote = b[start];
    let mut i = start + 1;
    proof {
        lemma_scan_string_from_bounds(b@, quote, i as int);
    }
    while i < b.len()
        invariant
            start < i,
            quote == b@[start as int],
            spec_scan_string_from(b@, quote, i as int) == spec_scan_string(b@, start as int),
        decreases b@.len() - i,
    {
        if b[i] == BACKSLASH {
            if b.len() - i < 2 {
                return None;
            }
            i = i + 2;
        } else if b[i] == quote {
            return Some(i + 1);
        } else {
            i = i + 1;
        }
    }
    None
}

/// First index at or after `i` holding `c`.
pub open spec fn spec_find_byte(b: Seq<u8>, i: int, c: u8) -> Option<int>
    decreases b.len() - i,
{
    if i < 0 || i >= b.len() {
        None
    } else if b[i] == c {
        Some(i)
    } else {
        spec_find_byte(b, i + 1, c)
    }
}

/// First index `p` at or after `i` with `b[p] == c1` and `b[p + 1] == c2`.
pub open spec fn spec_find_pair(b: Seq<u8>, i: int, c1: u8, c2: u8) -> Option<int>
    decreases b.len() - i,
{
    if i < 0 || i + 1 >= b.len() {
        None
    } else if b[i] == c1 && b[i + 1] == c2 {
        Some(i)
    } else {
        spec_find_pair(b, i + 1, c1, c2)
    }
}

pub proof fn lemma_find_byte_bounds(b: Seq<u8>, i: int, c: u8)
    ensures
        spec_find_byte(b, i, c) matches Some(p) ==> i <= p < b.len() && b[p] == c,
    decreases b.len() - i,
{
    if 0 <= i < b.len() && b[i] != c {
        lemma_find_byte_bounds(b, i + 1, c);
    }
}

pub proof fn lemma_find_pair_bounds(b: Seq<u8>, i: int, c1: u8, c2: u8)
    ensures
        spec_find_pair(b, i, c1, c2) matches Some(p) ==> i <= p && p + 1 < b.len(),
    decreases b.len() - i,
{
    if 0 <= i && i + 1 < b.len() && !(b[i] == c1 && b[i + 1] == c2) {
        lemma_find_pair_bounds(b, i + 1, c1, c2);
    }
}

pub fn find_byte(b: &[u8], i: usize, c: u8) -> (r: Option<usize>)
    ensures
        opt_int(r) == spec_find_byte(b@, i as int, c),
{
    let mut j = i;
    while j < b.len()
        invariant
            i <= j,
            spec_find_byte(b@, j as int, c) == spec_find_byte(b@, i as int, c),
        decreases b@.len() - j,
    {
        if b[j] == c {
            return Some(j);
        }
        j = j + 1;
    }
    None
}

fn find_pair(b: &[u8], i: usize, c1: u8, c2: u8) -> (r: Option<usize>)
    ensures
        opt_int(r) == spec_find_pair(b@, i as int, c1, c2),
{
    let mut j = i;
    while j < b.len() && b.len() - j > 1
        invariant
            i <= j,
            spec_find_pair(b@, j as int, c1, c2) == spec_find_pair(b@, i as int, c1, c2),
        decreases b@.len() - j,
    {
        if b[j] == c1 && b[j + 1] == c2 {
            return Some(j);
        }
        j = j + 1;
    }
    None
}

/// Where Rust trivia that starts at `i` ends: a string or character
/// literal, a line comment (through its newline) or a block comment
/// (through its `*/`); `None` when no trivia starts at `i`.
pub open spec fn spec_skip_trivia(b: Seq<u8>, i: int) -> Option<int> {
    if i < 0 || i >= b.len() {
        None
    } else if b[i] == DOUBLE_QUOTE || b[i] == SINGLE_QUOTE {
        spec_scan_string(b, i)
    } else if b[i] == SLASH && i + 1 < b.len() && b[i + 1] == SLASH {
        Some(
            match spec_find_byte(b, i, LINE_FEED) {
                Some(p) => p + 1,
                None => b.len() as int,
            },
        )
    } else if b[i] == SLASH && i + 1 < b.len() && b[i + 1] == STAR {
        Some(
            match spec_find_pair(b, i + 2, STAR, SLASH) {
                Some(p) => p + 2,
                None => b.len() as int,
            },
        )
    } else {
        None
    }
}

pub proof fn lemma_skip_trivia_bounds(b: Seq<u8>, i: int)
    ensures
        spec_skip_trivia(b, i) matches Some(next) ==> i < next <= b.len(),
{
    if 0 <= i < b.len() {
        lemma_scan_string_from_bounds(b, b[i], i + 1);
        lemma_find_byte_bounds(b, i, LINE_FEED);
        lemma_find_pair_bounds(b, i + 2, STAR, SLASH);
    }
}

pub fn skip_rust_trivia(b: &[u8], i: usize) -> (r: Option<usize>)
    ensures
        opt_int(r) == spec_skip_trivia(b@, i as int),
        r matches Some(next) ==> i < next <= b@.len(),
{
    proof {
        lemma_skip_trivia_bounds(b@, i as int);
    }
    if i >= b.len() {
        return None;
    }
    let c = b[i];
    if c == DOUBLE_QUOTE || c == SINGLE_QUOTE {
        scan_string(b, i)
    } else if c == SLASH && b.len() - i > 1 && b[i + 1] == SLASH {
        proof {
            lemma_find_byte_bounds(b@, i as int, LINE_FEED);
        }
        match find_byte(b, i, LINE_FEED) {
            Some(p) => Some(p + 1),
            None => Some(b.len()),
        }
    } else if c == SLASH && b.len() - i > 1 && b[i + 1] == STAR {
        proof {
            lemma_find_pair_bounds(b@, i + 2, STAR, SLASH);
        }
        match find_pair(b, i + 2, STAR, SLASH) {
            Some(p) => Some(p + 2),
            None => Some(b.len()),
        }
    } else {
        None
    }
}

/// Scanning for the delimiter that balances `open`, from `i` at nesting
/// `depth`, skipping trivia: the index just past it and `true`, or the end
/// of the text and `false`.
pub open spec fn spec_scan_balanced_from(b: Seq<u8>, i: int, depth: int, open: u8, close: u8) -> (
    int,
    bool,
)
    decreases b.len() - i,
{
    if i < 0 || i >= b.len() {
        (b.len() as int, false)
    } else {
        match spec_skip_trivia(b, i) {
            Some(next) => {
                proof {
                    lemma_skip_trivia_bounds(b, i);
                }
                spec_scan_balanced_from(b, next, depth, open, close)
            },
            None => {
                if b[i] == open {
                    spec_scan_balanced_from(b, i + 1, depth + 1, open, close)
                } else if b[i] == close {
                    let d = if depth > 0 {
                        depth - 1
                    } else {
                        0
                    };
                    if d == 0 {
                        (i + 1, true)
                    } else {
                        spec_scan_balanced_from(b, i + 1, d, open, close)
                    }
                } else {
                    spec_scan_balanced_from(b, i + 1, depth, open, close)
                }
            },
        }
    }
}

pub open spec fn spec_scan_balanced(b: Seq<u8>, start: int, open: u8, close: u8) -> (int, bool) {
    spec_scan_balanced_from(b, start, 0, open, close)
}

pub proof fn lemma_scan_balanced_from_bounds(
    b: Seq<u8>,
    i: int,
    depth: int,
    open: u8,
    close: u8,
)
    requires
        0 <= i,
    ensures
        i < b.len() ==> i < spec_scan_balanced_from(b, i, depth, open, close).0,
        spec_scan_balanced_from(b, i, depth, open, close).0 <= b.len(),
        i >= b.len() ==> spec_scan_balanced_from(b, i, depth, open, close).0 == b.len(),
        spec_scan_balanced_from(b, i, depth, open, close).1 ==> 0 < spec_scan_balanced_from(
            b,
            i,
            depth,
            open,
            close,
        ).0 && b[spec_scan_balanced_from(b, i, depth, open, close).0 - 1] == close,
        !spec_scan_balanced_from(b, i, depth, open, close).1 ==> spec_scan_balanced_from(
            b,
            i,
            depth,
            open,
            close,
        ).0 == b.len(),
    decreases b.len() - i,
{
    if i < b.len() {
        lemma_skip_trivia_bounds(b, i);
        match spec_skip_trivia(b, i) {
            Some(next) => {
                lemma_scan_balanced_from_bounds(b, next, depth, open, close);
            },
            None => {
                let d = if depth > 0 {
                    depth - 1
                } else {
                    0
                };
                lemma_scan_balanced_from_bounds(b, i + 1, depth + 1, open, close);
                lemma_scan_balanced_from_bounds(b, i + 1, d, open, close);
                lemma_scan_balanced_from_bounds(b, i + 1, depth, open, close);
            },
        }
    }
}

pub fn scan_balanced(b: &[u8], start: usize, open: u8, close: u8) -> (r: (usize, bool))
    ensures
        r.0 == spec_scan_balanced(b@, start as int, open, close).0,
        r.1 == spec_scan_balanced(b@, start as int, open, close).1,
        r.0 <= b@.len(),
        start < b@.len() ==> start < r.0,
        !r.1 ==> r.0 == b@.len(),
{
    proof {
        lemma_scan_balanced_from_bounds(b@, start as int, 0, open, close);
    }
    let mut depth: usize = 0;
    let mut i = start;
    while i < b.len()
        invariant
            start <= i,
            depth <= i - start,
            spec_scan_balanced_from(b@, i as int, depth as int, open, close)
                == spec_scan_balanced(b@, start as int, open, close),
        decreases b@.len() - i,
    {
        match skip_rust_trivia(b, i) {
            Some(next) => {
                i = next;
                continue ;
            },
            None => {},
        }
        let byte = b[i];
        if byte == open {
            depth = depth + 1;
        } else if byte == close {
            depth = if depth > 0 {
                depth - 1
            } else {
                0
            };
            if depth == 0 {
                return (i + 1, true);
            }
        }
        i = i + 1;
    }
    proof {
        lemma_scan_balanced_from_bounds(b@, i as int, depth as int, open, close);
    }
    (b.len(), false)
}


/// Searching, from `i` and before `end`, for the `>` that ends a tag:
/// trivia and braced Rust expressions are stepped over.
pub open spec fn spec_find_tag_end(b: Seq<u8>, i: int, end: int) -> Option<int>
    decreases end - i,
{
    if i < 0 || i >= end || i >= b.len() {
        None
    } else {
        match spec_skip_trivia(b, i) {
            Some(next) => {
                proof {
                    lemma_skip_trivia_bounds(b, i);
                }
                spec_find_tag_end(b, min(next, end), end)
            },
            None => {
                if b[i] == LEFT_BRACE {
                    proof {
                        lemma_scan_balanced_from_bounds(b, i, 0, LEFT_BRACE, RIGHT_BRACE);
                    }
                    spec_find_tag_end(
                        b,
                        min(spec_scan_balanced(b, i, LEFT_BRACE, RIGHT_BRACE).0, end),
                        end,
                    )
                } else if b[i] == GREATER_THAN {
                    Some(i)
                } else {
                    spec_find_tag_end(b, i + 1, end)
                }
            },
        }
    }
}

pub proof fn lemma_find_tag_end_bounds(b: Seq<u8>, i: int, end: int)
    ensures
        spec_find_tag_end(b, i, end) matches Some(p) ==> i <= p < end && p < b.len(),
    decreases end - i,
{
    if 0 <= i < end && i < b.len() {
        lemma_skip_trivia_bounds(b, i);
        lemma_scan_balanced_from_bounds(b, i, 0, LEFT_BRACE, RIGHT_BRACE);
        match spec_skip_trivia(b, i) {
            Some(next) => lemma_find_tag_end_bounds(b, min(next, end), end),
            None => {
                lemma_find_tag_end_bounds(
                    b,
                    min(spec_scan_balanced(b, i, LEFT_BRACE, RIGHT_BRACE).0, end),
                    end,
                );
                lemma_find_tag_end_bounds(b, i + 1, end);
            },
        }
    }
}

pub fn find_tag_end(b: &[u8], i: usize, end: usize) -> (r: Option<usize>)
    requires
        end <= b@.len(),
    ensures
        opt_int(r) == spec_find_tag_end(b@, i as int, end as int),
        r matches Some(p) ==> i <= p < end,
{
    proof {
        lemma_find_tag_end_bounds(b@, i as int, end as int);
    }
    let mut j = i;
    while j < end
        invariant
            i <= j,
            end <= b@.len(),
            spec_find_tag_end(b@, j as int, end as int) == spec_find_tag_end(
                b@,
                i as int,
                end as int,
            ),
        decreases end - j,
    {
        match skip_rust_trivia(b, j) {
            Some(next) => {
                j = if next < end {
                    next
                } else {
                    end
                };
                continue ;
            },
            None => {},
        }
        if b[j] == LEFT_BRACE {
            let (e, _) = scan_balanced(b, j, LEFT_BRACE, RIGHT_BRACE);
            j = if e < end {
                e
            } else {
                end
            };
            continue ;
        }
        if b[j] == GREATER_THAN {
            return Some(j);
        }
        j = j + 1;
    }
    None
}

/// The closing delimiter that pairs with an opening one.
pub open spec fn spec_matching_close(open: u8) -> u8 {
    if open == LEFT_BRACE {
        RIGHT_BRACE
    } else if open == LEFT_PAREN {
        RIGHT_PAREN
    } else if open == LEFT_BRACKET {
        RIGHT_BRACKET
    } else {
        open
    }
}

pub fn matching_close(open: u8) -> (r: u8)
    ensures
        r == spec_matching_close(open),
{
    if open == LEFT_BRACE {
        RIGHT_BRACE
    } else if open == LEFT_PAREN {
        RIGHT_PAREN
    } else if open == LEFT_BRACKET {
        RIGHT_BRACKET
    } else {
        open
    }
}

/// End of the identifier characters that start at `i`.
pub open spec fn spec_ident_end(b: Seq<u8>, i: int) -> int
    decreases b.len() - i,
{
    if 0 <= i < b.len() && spec_is_ident_continue(b[i]) {
        spec_ident_end(b, i + 1)
    } else {
        i
    }
}

/// The macro that the identifier `b[start..end]` names, if any.
pub open spec fn spec_macro_kind(b: Seq<u8>, start: int, end: int) -> Option<MacroKind> {
    let ident = b.subrange(start, end);
    if ident == "render".spec_bytes() {
        Some(MacroKind::Render)
    } else if ident == "css".spec_bytes() {
        Some(MacroKind::Css)
    } else if ident == "global_css".spec_bytes() {
        Some(MacroKind::GlobalCss)
    } else {
        None
    }
}

pub open spec fn is_open_delimiter(c: u8) -> bool {
    c == LEFT_BRACE || c == LEFT_PAREN || c == LEFT_BRACKET
}

/// The invocation record for a macro whose name spans `start..name_end`,
/// whose opening delimiter is at `open_at`, and whose scan ended at `end`.
pub open spec fn spec_invocation(
    kind: MacroKind,
    start: int,
    name_end: int,
    open_at: int,
    end: int,
    closed: bool,
) -> MacroInvocation {
    MacroInvocation {
        kind,
        name_range: ByteRange { start: start as usize, end: name_end as usize },
        body: ByteRange {
            start: (open_at + 1) as usize,
            end: (if closed {
                end - 1
            } else {
                end
            }) as usize,
        },
        whole: ByteRange { start: start as usize, end: end as usize },
        closed,
    }
}

/// The invocations that the scan finds from index `i` on, in text order.
pub open spec fn spec_scan_macros_from(b: Seq<u8>, i: int) -> Seq<MacroInvocation>
    decreases b.len() - i,
{
    if i < 0 || i >= b.len() {
        seq![]
    } else {
        match spec_skip_trivia(b, i) {
            Some(next) => {
                proof {
                    lemma_skip_trivia_bounds(b, i);
                }
                spec_scan_macros_from(b, next)
            },
            None => {
                if !spec_is_ident_start(b[i]) {
                    spec_scan_macros_from(b, i + 1)
                } else {
                    let e = spec_ident_end(b, i + 1);
                    proof {
                        lemma_ident_end_bounds(b, i + 1);
                        lemma_skip_ws_until_bounds(b, e, b.len() as int);
                        lemma_skip_ws_until_bounds(
                            b,
                            spec_skip_ws_until(b, e, b.len() as int) + 1,
                            b.len() as int,
                        );
                    }
                    match spec_macro_kind(b, i, e) {
                        None => spec_scan_macros_from(b, e),
                        Some(kind) => {
                            let j = spec_skip_ws_until(b, e, b.len() as int);
                            if j >= b.len() || b[j] != BANG {
                                spec_scan_macros_from(b, e)
                            } else {
                                let k = spec_skip_ws_until(b, j + 1, b.len() as int);
                                if k >= b.len() || !is_open_delimiter(b[k]) {
                                    spec_scan_macros_from(b, e)
                                } else {
                                    let (end, closed) = spec_scan_balanced(
                                        b,
                                        k,
                                        b[k],
                                        spec_matching_close(b[k]),
                                    );
                                    proof {
                                        lemma_scan_balanced_from_bounds(
                                            b,
                                            k,
                                            0,
                                            b[k],
                                            spec_matching_close(b[k]),
                                        );
                                    }
                                    seq![spec_invocation(kind, i, e, k, end, closed)]
                                        + spec_scan_macros_from(b, max(end, k + 1))
                                }
                            }
                        },
                    }
                }
            },
        }
    }
}

/// All macro invocations in a text, in text order.
pub open spec fn spec_scan_macros(b: Seq<u8>) -> Seq<MacroInvocation> {
    spec_scan_macros_from(b, 0)
}

pub proof fn lemma_ident_end_bounds(b: Seq<u8>, i: int)
    ensures
        i <= spec_ident_end(b, i),
        0 <= i <= b.len() ==> spec_ident_end(b, i) <= b.len(),
    decreases b.len() - i,
{
    if 0 <= i < b.len() && spec_is_ident_continue(b[i]) {
        lemma_ident_end_bounds(b, i + 1);
    }
}

pub proof fn lemma_skip_ws_until_bounds(b: Seq<u8>, i: int, end: int)
    ensures
        i <= spec_skip_ws_until(b, i, end),
        i <= end ==> spec_skip_ws_until(b, i, end) <= end,
    decreases end - i,
{
    if 0 <= i < end && i < b.len() && spec_is_ascii_ws(b[i]) {
        lemma_skip_ws_until_bounds(b, i + 1, end);
    }
}

/// Whether `b[start..end]` holds exactly the bytes of `word`.
pub fn range_eq_str(b: &[u8], start: usize, end: usize, word: &str) -> (r: bool)
    requires
        start <= end <= b@.len(),
    ensures
        r == (b@.subrange(start as int, end as int) == word.spec_bytes()),
{
    let w = word.as_bytes();
    if end - start != w.len() {
        return false;
    }
    let mut k: usize = 0;
    while k < w.len()
        invariant
            k <= w@.len(),
            w@ == word.spec_bytes(),
            end - start == w@.len(),
            start <= end <= b@.len(),
            forall|m: int| 0 <= m < k ==> b@[start + m] == w@[m],
        decreases w@.len() - k,
    {
        if b[start + k] != w[k] {
            assert(b@.subrange(start as int, end as int)[k as int] == b@[start + k]);
            assert(b@.subrange(start as int, end as int)[k as int] != w@[k as int]);
            return false;
        }
        k = k + 1;
    }
    assert(b@.subrange(start as int, end as int) =~= w@);
    true
}

fn macro_kind(b: &[u8], start: usize, end: usize) -> (r: Option<MacroKind>)
    requires
        start <= end <= b@.len(),
    ensures
        r == spec_macro_kind(b@, start as int, end as int),
{
    if range_eq_str(b, start, end, "render") {
        Some(MacroKind::Render)
    } else if range_eq_str(b, start, end, "css") {
        Some(MacroKind::Css)
    } else if range_eq_str(b, start, end, "global_css") {
        Some(MacroKind::GlobalCss)
    } else {
        None
    }
}

/// Finds every `render!`, `css!` and `global_css!` invocation in `text`,
/// in text order, skipping string literals and comments.
pub fn scan_macros(text: &str) -> (r: Vec<MacroInvocation>)
    ensures
        r@ == spec_scan_macros(text.spec_bytes()),
{
    scan_macros_bytes(text.as_bytes())
}

pub fn scan_macros_bytes(b: &[u8]) -> (r: Vec<MacroInvocation>)
    ensures
        r@ == spec_scan_macros(b@),
{
    let mut invocations: Vec<MacroInvocation> = Vec::new();
    let mut i: usize = 0;
    while i < b.len()
        invariant
            invocations@ + spec_scan_macros_from(b@, i as int) == spec_scan_macros(b@),
        decreases b@.len() - i,
    {
        match skip_rust_trivia(b, i) {
            Some(next) => {
                i = next;
                continue ;
            },
            None => {},
        }
        if !is_ident_start(b[i]) {
            i = i + 1;
            continue ;
        }
        let ident_start = i;
        i = i + 1;
        while i < b.len() && is_ident_continue(b[i])
            invariant
                ident_start < i <= b@.len(),
                spec_ident_end(b@, i as int) == spec_ident_end(b@, ident_start + 1),
            decreases b@.len() - i,
        {
            i = i + 1;
        }
        let kind = match macro_kind(b, ident_start, i) {
            Some(kind) => kind,
            None => {
                continue ;
            },
        };
        let j = skip_ws(b, i);
        if j >= b.len() || b[j] != BANG {
            continue ;
        }
        let k = skip_ws(b, j + 1);
        if k >= b.len() {
            continue ;
        }
        let open = b[k];
        if !(open == LEFT_BRACE || open == LEFT_PAREN || open == LEFT_BRACKET) {
            continue ;
        }
        let close = matching_close(open);
        let (end, closed) = scan_balanced(b, k, open, close);
        let body_end = if closed {
            end - 1
        } else {
            end
        };
        let invocation = MacroInvocation {
            kind,
            name_range: ByteRange::new(ident_start, i),
            body: ByteRange::new(k + 1, body_end),
            whole: ByteRange::new(ident_start, end),
            closed,
        };
        proof {
            assert(invocation == spec_invocation(
                kind,
                ident_start as int,
                i as int,
                k as int,
                end as int,
                closed,
            ));
            assert(invocations@.push(invocation) + spec_scan_macros_from(
                b@,
                if end > k + 1 {
                    end as int
                } else {
                    k + 1
                },
            ) =~= invocations@ + spec_scan_macros_from(b@, ident_start as int));
        }
        invocations.push(invocation);
        i = if end > k + 1 {
            end
        } else {
            k + 1
        };
    }
    assert(invocations@ + spec_scan_macros_from(b@, i as int) =~= invocations@);
    invocations
}

/// A string literal whose quote appears nowhere after it never closes.
proof fn lemma_scan_string_unclosed(b: Seq<u8>, quote: u8, i: int)
    requires
        0 <= i,
        forall|k: int| i <= k < b.len() ==> #[trigger] b[k] != quote,
    ensures
        spec_scan_string_from(b, quote, i) is None,
    decreases b.len() - i,
{
    if 0 <= i < b.len() {
        if b[i] == BACKSLASH {
            if i + 2 <= b.len() {
                lemma_scan_string_unclosed(b, quote, i + 2);
            }
        } else {
            lemma_scan_string_unclosed(b, quote, i + 1);
        }
    }
}

/// A quote that is never closed (no byte after it is the same quote, as
/// with the `'` of a lifetime such as `'static`) hides nothing: the search
/// for macro invocations steps over it as one byte, so every invocation
/// after it is still found.
pub proof fn law_unclosed_quote_hides_nothing(b: Seq<u8>, i: int)
    requires
        0 <= i < b.len(),
        b[i] == DOUBLE_QUOTE || b[i] == SINGLE_QUOTE,
        forall|k: int| i < k < b.len() ==> #[trigger] b[k] != b[i],
    ensures
        spec_skip_trivia(b, i) is None,
        spec_scan_macros_from(b, i) == spec_scan_macros_from(b, i + 1),
{
    lemma_scan_string_unclosed(b, b[i], i + 1);
}

/// A string literal whose contents hold neither its quote nor a backslash
/// ends just past the first quote that follows.
pub proof fn lemma_scan_string_closes(b: Seq<u8>, quote: u8, p: int, q: int)
    requires
        0 <= p <= q < b.len(),
        b[q] == quote,
        quote != BACKSLASH,
        forall|k: int| p <= k < q ==> #[trigger] b[k] != quote && b[k] != BACKSLASH,
    ensures
        spec_scan_string_from(b, quote, p) == Some(q + 1),
    decreases q - p,
{
    if p < q {
        lemma_scan_string_closes(b, quote, p + 1, q);
    }
}

} // verus!
