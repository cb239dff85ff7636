//! Byte classes and small byte-sequence utilities shared by the scanners.

use vstd::prelude::*;
use vstd::utf8::*;
use vstd::string::*;

verus! {

pub const UNDERSCORE: u8 = 0x5f;
pub const LOWER_A: u8 = 0x61;
pub const LOWER_Z: u8 = 0x7a;
pub const UPPER_A: u8 = 0x41;
pub const UPPER_Z: u8 = 0x5a;
pub const DIGIT_0: u8 = 0x30;
pub const DIGIT_9: u8 = 0x39;
pub const HYPHEN: u8 = 0x2d;
pub const COLON: u8 = 0x3a;
pub const DOT: u8 = 0x2e;
pub const SPACE: u8 = 0x20;
pub const TAB: u8 = 0x09;
pub const LINE_FEED: u8 = 0x0a;
pub const VERTICAL_TAB: u8 = 0x0b;
pub const FORM_FEED: u8 = 0x0c;
pub const CARRIAGE_RETURN: u8 = 0x0d;
pub const DOUBLE_QUOTE: u8 = 0x22;
pub const SINGLE_QUOTE: u8 = 0x27;
pub const BACKSLASH: u8 = 0x5c;
pub const SLASH: u8 = 0x2f;
pub const STAR: u8 = 0x2a;
pub const BANG: u8 = 0x21;
pub const LEFT_BRACE: u8 = 0x7b;
pub const RIGHT_BRACE: u8 = 0x7d;
pub const LEFT_PAREN: u8 = 0x28;
pub const RIGHT_PAREN: u8 = 0x29;
pub const LEFT_BRACKET: u8 = 0x5b;
pub const RIGHT_BRACKET: u8 = 0x5d;
pub const LESS_THAN: u8 = 0x3c;
pub const GREATER_THAN: u8 = 0x3e;
pub const EQUALS: u8 = 0x3d;
pub const SEMICOLON: u8 = 0x3b;
pub const AMPERSAND: u8 = 0x26;
pub const AT_SIGN: u8 = 0x40;
pub const PLUS: u8 = 0x2b;

/// `_` or an ASCII letter.
pub open spec fn spec_is_ident_start(byte: u8) -> bool {
    byte == 0x5f || (0x61 <= byte <= 0x7a) || (0x41 <= byte <= 0x5a)
}

/// An ASCII decimal digit.
pub open spec fn spec_is_digit(byte: u8) -> bool {
    0x30 <= byte <= 0x39
}

pub open spec fn spec_is_ident_continue(byte: u8) -> bool {
    spec_is_ident_start(byte) || spec_is_digit(byte)
}

pub open spec fn spec_is_tag_name_continue(byte: u8) -> bool {
    spec_is_ident_continue(byte) || byte == 0x2d || byte == 0x3a
}

pub open spec fn spec_is_attr_key_continue(byte: u8) -> bool {
    spec_is_tag_name_continue(byte) || byte == 0x2e
}

/// What `u8::is_ascii_whitespace` accepts: space, tab, line feed, form feed
/// and carriage return (not the vertical tab).
pub open spec fn spec_is_ascii_ws(byte: u8) -> bool {
    byte == 0x20 || byte == 0x09 || byte == 0x0a || byte == 0x0c || byte == 0x0d
}

pub fn is_ident_start(byte: u8) -> (r: bool)
    ensures
        r == spec_is_ident_start(byte),
{
    byte == UNDERSCORE || (LOWER_A <= byte && byte <= LOWER_Z) || (UPPER_A <= byte && byte
        <= UPPER_Z)
}

pub fn is_ident_continue(byte: u8) -> (r: bool)
    ensures
        r == spec_is_ident_continue(byte),
{
    is_ident_start(byte) || (DIGIT_0 <= byte && byte <= DIGIT_9)
}

pub fn is_tag_name_continue(byte: u8) -> (r: bool)
    ensures
        r == spec_is_tag_name_continue(byte),
{
    is_ident_continue(byte) || byte == HYPHEN || byte == COLON
}

pub fn is_attr_key_continue(byte: u8) -> (r: bool)
    ensures
        r == spec_is_attr_key_continue(byte),
{
    is_tag_name_continue(byte) || byte == DOT
}

pub fn is_ascii_ws(byte: u8) -> (r: bool)
    ensures
        r == spec_is_ascii_ws(byte),
{
    byte == SPACE || byte == TAB || byte == LINE_FEED || byte == FORM_FEED || byte
        == CARRIAGE_RETURN
}


/// Length of the UTF-8 encoding of a Unicode `White_Space` character
/// (what `char::is_whitespace`, and so `str::trim`, removes) at the start of
/// `s`, or 0 when `s` does not start with one.
pub open spec fn ws_prefix_len(s: Seq<u8>) -> int {
    if s.len() >= 1 && (spec_is_ascii_ws(s[0]) || s[0] == 0x0b) {
        1
    } else if s.len() >= 2 && s[0] == 0xc2 && (s[1] == 0x85 || s[1] == 0xa0) {
        2
    } else if s.len() >= 3 && is_ws3(s[0], s[1], s[2]) {
        3
    } else {
        0
    }
}

/// The three-byte encodings of U+1680, U+2000..=U+200A, U+2028, U+2029,
/// U+202F, U+205F and U+3000.
pub open spec fn is_ws3(a: u8, b: u8, c: u8) -> bool {
    ||| a == 0xe1 && b == 0x9a && c == 0x80
    ||| a == 0xe2 && b == 0x80 && ((0x80 <= c <= 0x8a) || c == 0xa8 || c == 0xa9 || c == 0xaf)
    ||| a == 0xe2 && b == 0x81 && c == 0x9f
    ||| a == 0xe3 && b == 0x80 && c == 0x80
}

/// Length of the encoding of a `White_Space` character at the end of `s`, or 0.
pub open spec fn ws_suffix_len(s: Seq<u8>) -> int {
    let n = s.len() as int;
    if n >= 1 && (spec_is_ascii_ws(s[n - 1]) || s[n - 1] == 0x0b) {
        1
    } else if n >= 2 && s[n - 2] == 0xc2 && (s[n - 1] == 0x85 || s[n - 1] == 0xa0) {
        2
    } else if n >= 3 && is_ws3(s[n - 3], s[n - 2], s[n - 1]) {
        3
    } else {
        0
    }
}

/// `str::trim_start` on the UTF-8 bytes of a string.
pub open spec fn trim_start(s: Seq<u8>) -> Seq<u8>
    decreases s.len(),
{
    let k = ws_prefix_len(s);
    if k > 0 {
        trim_start(s.skip(k))
    } else {
        s
    }
}

/// `str::trim_end` on the UTF-8 bytes of a string.
pub open spec fn trim_end(s: Seq<u8>) -> Seq<u8>
    decreases s.len(),
{
    let k = ws_suffix_len(s);
    if k > 0 {
        trim_end(s.take(s.len() - k))
    } else {
        s
    }
}

/// `str::trim` on the UTF-8 bytes of a string.
pub open spec fn trim(s: Seq<u8>) -> Seq<u8> {
    trim_end(trim_start(s))
}

fn ws_prefix_len_at(b: &[u8], i: usize, end: usize) -> (k: usize)
    requires
        i <= end <= b@.len(),
    ensures
        k == ws_prefix_len(b@.subrange(i as int, end as int)),
{
    if i < end && (is_ascii_ws(b[i]) || b[i] == VERTICAL_TAB) {
        1
    } else if end - i >= 2 && b[i] == 0xc2 && (b[i + 1] == 0x85 || b[i + 1] == 0xa0) {
        2
    } else if end - i >= 3 && is_ws3_exec(b[i], b[i + 1], b[i + 2]) {
        3
    } else {
        0
    }
}

fn ws_suffix_len_at(b: &[u8], start: usize, j: usize) -> (k: usize)
    requires
        start <= j <= b@.len(),
    ensures
        k == ws_suffix_len(b@.subrange(start as int, j as int)),
{
    if j - start >= 1 && (is_ascii_ws(b[j - 1]) || b[j - 1] == VERTICAL_TAB) {
        1
    } else if j - start >= 2 && b[j - 2] == 0xc2 && (b[j - 1] == 0x85 || b[j - 1] == 0xa0) {
        2
    } else if j - start >= 3 && is_ws3_exec(b[j - 3], b[j - 2], b[j - 1]) {
        3
    } else {
        0
    }
}

fn is_ws3_exec(a: u8, b: u8, c: u8) -> (r: bool)
    ensures
        r == is_ws3(a, b, c),
{
    (a == 0xe1 && b == 0x9a && c == 0x80) || (a == 0xe2 && b == 0x80 && ((0x80 <= c && c <= 0x8a)
        || c == 0xa8 || c == 0xa9 || c == 0xaf)) || (a == 0xe2 && b == 0x81 && c == 0x9f) || (a
        == 0xe3 && b == 0x80 && c == 0x80)
}

/// Bounds of `trim(b[start..end])` inside `b`.
pub fn trim_bounds(b: &[u8], start: usize, end: usize) -> (r: (usize, usize))
    requires
        start <= end <= b@.len(),
    ensures
        start <= r.0 <= r.1 <= end,
        b@.subrange(r.0 as int, r.1 as int) == trim(b@.subrange(start as int, end as int)),
        b@.subrange(r.0 as int, end as int) == trim_start(b@.subrange(start as int, end as int)),
{
    let s = trim_start_bound(b, start, end);
    let e = trim_end_bound(b, s, end);
    (s, e)
}

/// Start of `trim_start(b[start..end])` inside `b`.
pub fn trim_start_bound(b: &[u8], start: usize, end: usize) -> (r: usize)
    requires
        start <= end <= b@.len(),
    ensures
        start <= r <= end,
        b@.subrange(r as int, end as int) == trim_start(b@.subrange(start as int, end as int)),
{
    let mut i = start;
    loop
        invariant
            start <= i <= end <= b@.len(),
            trim_start(b@.subrange(i as int, end as int)) == trim_start(
                b@.subrange(start as int, end as int),
            ),
        decreases end - i,
    {
        let k = ws_prefix_len_at(b, i, end);
        if k == 0 {
            return i;
        }
        assert(b@.subrange(i as int, end as int).skip(k as int) =~= b@.subrange(
            i + k,
            end as int,
        ));
        i = i + k;
    }
}

/// End of `trim_end(b[start..end])` inside `b`.
pub fn trim_end_bound(b: &[u8], start: usize, end: usize) -> (r: usize)
    requires
        start <= end <= b@.len(),
    ensures
        start <= r <= end,
        b@.subrange(start as int, r as int) == trim_end(b@.subrange(start as int, end as int)),
{
    let mut j = end;
    loop
        invariant
            start <= j <= end <= b@.len(),
            trim_end(b@.subrange(start as int, j as int)) == trim_end(
                b@.subrange(start as int, end as int),
            ),
        decreases j - start,
    {
        let k = ws_suffix_len_at(b, start, j);
        if k == 0 {
            return j;
        }
        assert(b@.subrange(start as int, j as int).take(j - start - k) =~= b@.subrange(
            start as int,
            j - k,
        ));
        j = j - k;
    }
}

/// FNV-1a (32-bit) over a byte sequence.
pub open spec fn spec_fnv1a(s: Seq<u8>) -> u32
    decreases s.len(),
{
    if s.len() == 0 {
        2166136261u32
    } else {
        (((spec_fnv1a(s.drop_last()) ^ (s.last() as u32)) as nat * 16777619nat) % 0x1_0000_0000nat) as u32
    }
}

pub fn fnv1a_hash(s: &[u8]) -> (h: u32)
    ensures
        h == spec_fnv1a(s@),
{
    let mut hash: u32 = 2166136261;
    let mut i: usize = 0;
    while i < s.len()
        invariant
            i <= s@.len(),
            hash == spec_fnv1a(s@.take(i as int)),
        decreases s@.len() - i,
    {
        assert(s@.take(i + 1).drop_last() =~= s@.take(i as int));
        hash = hash ^ (s[i] as u32);
        hash = hash.wrapping_mul(16777619);
        i = i + 1;
    }
    assert(s@.take(s@.len() as int) =~= s@);
    hash
}

/// Lowercase hexadecimal digit for `d` in `0..16`.
pub open spec fn hex_digit(d: int) -> u8 {
    if d < 10 {
        (0x30 + d) as u8
    } else {
        (0x61 + d - 10) as u8
    }
}

/// `format!("{:06x}", h)` for `h < 0x100_0000`.
pub open spec fn hex6(h: int) -> Seq<u8> {
    seq![
        hex_digit((h / 0x10_0000) % 16),
        hex_digit((h / 0x1_0000) % 16),
        hex_digit((h / 0x1000) % 16),
        hex_digit((h / 0x100) % 16),
        hex_digit((h / 0x10) % 16),
        hex_digit(h % 16),
    ]
}

fn hex_digit_exec(d: u32) -> (r: u8)
    requires
        d < 16,
    ensures
        r == hex_digit(d as int),
{
    if d < 10 {
        (0x30 + d) as u8
    } else {
        (0x61 + d - 10) as u8
    }
}

/// Appends the six lowercase hex digits of `h` to `out`.
pub fn push_hex6(out: &mut Vec<u8>, h: u32)
    requires
        h < 0x100_0000,
    ensures
        final(out)@ == old(out)@ + hex6(h as int),
{
    out.push(hex_digit_exec((h / 0x10_0000) % 16));
    out.push(hex_digit_exec((h / 0x1_0000) % 16));
    out.push(hex_digit_exec((h / 0x1000) % 16));
    out.push(hex_digit_exec((h / 0x100) % 16));
    out.push(hex_digit_exec((h / 0x10) % 16));
    out.push(hex_digit_exec(h % 16));
    assert(final(out)@ =~= old(out)@ + hex6(h as int));
}

/// Appends `b[start..end]` to `out`.
pub fn push_range(out: &mut Vec<u8>, b: &[u8], start: usize, end: usize)
    requires
        start <= end <= b@.len(),
    ensures
        final(out)@ == old(out)@ + b@.subrange(start as int, end as int),
{
    let mut i = start;
    while i < end
        invariant
            start <= i <= end <= b@.len(),
            out@ == old(out)@ + b@.subrange(start as int, i as int),
        decreases end - i,
    {
        out.push(b[i]);
        assert(b@.subrange(start as int, i + 1) =~= b@.subrange(start as int, i as int).push(
            b@[i as int],
        ));
        i = i + 1;
    }
}

/// Appends the UTF-8 bytes of `s` to `out`.
pub fn push_str(out: &mut Vec<u8>, s: &str)
    ensures
        final(out)@ == old(out)@ + s.spec_bytes(),
{
    let b = s.as_bytes();
    push_range(out, b, 0, b.len());
    assert(b@.subrange(0, b@.len() as int) =~= b@);
}

/// The text that a byte buffer holds: its UTF-8 decoding when it is valid
/// UTF-8, and the empty text otherwise.
pub open spec fn utf8_text(b: Seq<u8>) -> Seq<char> {
    if valid_utf8(b) {
        decode_utf8(b)
    } else {
        Seq::empty()
    }
}

#[verifier::external_type_specification]
#[verifier::external_body]
pub struct ExFromUtf8Error(std::string::FromUtf8Error);

/// Calls `String::from_utf8`, which succeeds exactly on valid UTF-8 and then
/// holds the decoded characters.
#[verifier::external_body]
fn string_from_utf8(bytes: Vec<u8>) -> (r: Result<String, std::string::FromUtf8Error>)
    ensures
        r is Ok <==> valid_utf8(bytes@),
        r matches Ok(s) ==> s@ == decode_utf8(bytes@),
{
    String::from_utf8(bytes)
}

/// Turns a UTF-8 buffer into a `String`.
pub fn bytes_to_string(bytes: Vec<u8>) -> (s: String)
    ensures
        s@ == utf8_text(bytes@),
{
    match string_from_utf8(bytes) {
        Ok(s) => s,
        Err(_) => String::new(),
    }
}


/// Whether `b[start..end]` equals `other`.
pub fn range_eq_bytes(b: &[u8], start: usize, end: usize, other: &[u8]) -> (r: bool)
    requires
        start <= end <= b@.len(),
    ensures
        r == (b@.subrange(start as int, end as int) == other@),
{
    if end - start != other.len() {
        return false;
    }
    let mut k: usize = 0;
    while k < other.len()
        invariant
            k <= other@.len(),
            end - start == other@.len(),
            start <= end <= b@.len(),
            forall|m: int| 0 <= m < k ==> b@[start + m] == other@[m],
        decreases other@.len() - k,
    {
        if b[start + k] != other[k] {
            assert(b@.subrange(start as int, end as int)[k as int] == b@[start + k]);
            return false;
        }
        k = k + 1;
    }
    assert(b@.subrange(start as int, end as int) =~= other@);
    true
}

} // verus!
