//! Which cuts, trims and joins keep a byte sequence valid UTF-8.

use vstd::prelude::*;
use vstd::utf8::*;

use crate::bytes::{trim, trim_end, trim_start, ws_prefix_len, ws_suffix_len};
use crate::line_index::on_char_boundary;

verus! {

/// The code point of an ASCII byte is the byte.
proof fn lemma_ascii_codepoint(b: u8)
    requires
        b < 0x80,
    ensures
        codepoint_width_1(b) == b as u32,
{
    assert((b & 0x7f) as u32 == b as u32) by (bit_vector)
        requires
            b < 0x80,
    ;
}

/// A sequence of ASCII bytes is valid UTF-8.
pub proof fn lemma_ascii_valid(s: Seq<u8>)
    requires
        forall|k: int| 0 <= k < s.len() ==> #[trigger] s[k] < 0x80,
    ensures
        valid_utf8(s),
    decreases s.len(),
{
    if s.len() > 0 {
        lemma_ascii_codepoint(s[0]);
        let rest = s.subrange(1, s.len() as int);
        assert(pop_first_scalar(s) =~= rest);
        lemma_ascii_valid(rest);
    }
}

/// The bytes of any text are valid UTF-8.
pub proof fn lemma_encoded_valid(t: Seq<char>)
    ensures
        valid_utf8(encode_utf8(t)),
{
    encode_utf8_valid_utf8(t);
}

/// Joining two valid sequences gives a valid one.
pub proof fn lemma_join_valid(a: Seq<u8>, b: Seq<u8>)
    requires
        valid_utf8(a),
        valid_utf8(b),
    ensures
        valid_utf8(a + b),
{
    valid_utf8_concat(a, b);
}

/// In a valid sequence, a place where the text can be cut is a character
/// boundary.
proof fn lemma_cut_is_boundary(s: Seq<u8>, i: int)
    requires
        valid_utf8(s),
        0 <= i <= s.len(),
        on_char_boundary(s, i),
    ensures
        is_char_boundary(s, i),
{
    if i < s.len() {
        is_char_boundary_iff_not_is_continuation_byte(s, i);
    } else {
        is_char_boundary_start_end_of_seq(s);
    }
}

/// Cutting a valid sequence where it can be cut leaves a valid sequence.
pub proof fn lemma_cut_valid(s: Seq<u8>, i: int, j: int)
    requires
        valid_utf8(s),
        0 <= i <= j <= s.len(),
        on_char_boundary(s, i),
        on_char_boundary(s, j),
    ensures
        valid_utf8(s.subrange(i, j)),
{
    lemma_cut_is_boundary(s, j);
    valid_utf8_split(s, j);
    let t = s.subrange(0, j);
    if i < j {
        assert(t[i] == s[i]);
        lemma_cut_is_boundary(t, i);
        valid_utf8_split(t, i);
        assert(t.subrange(i, t.len() as int) =~= s.subrange(i, j));
    } else {
        assert(s.subrange(i, j) =~= Seq::<u8>::empty());
    }
}

/// In a valid sequence, the text can be cut just after an ASCII byte.
pub proof fn lemma_after_ascii(s: Seq<u8>, q: int)
    requires
        valid_utf8(s),
        0 <= q < s.len(),
        s[q] < 0x80,
    ensures
        on_char_boundary(s, q + 1),
{
    if q + 1 < s.len() {
        lemma_cut_valid(s, q, s.len() as int);
        let t = s.subrange(q, s.len() as int);
        assert(t[0] == s[q]);
        reveal_with_fuel(valid_utf8, 2);
        let rest = pop_first_scalar(t);
        assert(rest =~= s.subrange(q + 1, s.len() as int));
        assert(rest[0] == s[q + 1]);
        assert(valid_first_scalar(rest));
    }
}

/// Removing the whitespace that `trim_start` removes keeps a sequence valid.
pub proof fn lemma_trim_start_valid(s: Seq<u8>)
    requires
        valid_utf8(s),
    ensures
        valid_utf8(trim_start(s)),
    decreases s.len(),
{
    let k = ws_prefix_len(s);
    if k > 0 {
        assert(length_of_first_scalar(s) == k);
        assert(pop_first_scalar(s) =~= s.skip(k));
        lemma_trim_start_valid(s.skip(k));
    }
}

/// Removing the whitespace that `trim_end` removes keeps a sequence valid.
pub proof fn lemma_trim_end_valid(s: Seq<u8>)
    requires
        valid_utf8(s),
    ensures
        valid_utf8(trim_end(s)),
    decreases s.len(),
{
    let k = ws_suffix_len(s);
    if k > 0 {
        let n = s.len() as int;
        assert(!(0x80 <= s[n - k] < 0xc0));
        lemma_cut_valid(s, 0, n - k);
        assert(s.subrange(0, n - k) =~= s.take(n - k));
        lemma_trim_end_valid(s.take(n - k));
    }
}

/// Trimming keeps a sequence valid.
pub proof fn lemma_trim_valid(s: Seq<u8>)
    requires
        valid_utf8(s),
    ensures
        valid_utf8(trim(s)),
{
    lemma_trim_start_valid(s);
    lemma_trim_end_valid(trim_start(s));
}

/// An ASCII sequence decodes to the characters with its byte values.
pub proof fn lemma_ascii_decode(s: Seq<u8>)
    requires
        forall|k: int| 0 <= k < s.len() ==> #[trigger] s[k] < 0x80,
    ensures
        valid_utf8(s),
        decode_utf8(s).len() == s.len(),
        forall|k: int| 0 <= k < s.len() ==> #[trigger] decode_utf8(s)[k] == s[k] as char,
    decreases s.len(),
{
    lemma_ascii_valid(s);
    if s.len() > 0 {
        lemma_ascii_codepoint(s[0]);
        let rest = s.subrange(1, s.len() as int);
        assert(pop_first_scalar(s) =~= rest);
        lemma_ascii_decode(rest);
        assert forall|k: int| 0 <= k < s.len() implies #[trigger] decode_utf8(s)[k] == s[k] as char by {
            if k > 0 {
                assert(decode_utf8(s)[k] == decode_utf8(rest)[k - 1]);
                assert(rest[k - 1] == s[k]);
            }
        }
    }
}

/// The first byte of a text's encoding is the ASCII byte `c` exactly when
/// its first character is `c`.
pub proof fn lemma_first_byte_ascii(t: Seq<char>, c: u8)
    requires
        t.len() > 0,
        c < 0x80,
    ensures
        encode_utf8(t).len() > 0,
        (encode_utf8(t)[0] == c) <==> (t[0] as u32 == c as u32),
{
    encode_utf8_first_scalar(t);
    let p = encode_utf8(t);
    if is_leading_byte_width_1(p[0]) {
        lemma_ascii_codepoint(p[0]);
    }
}

/// Where two valid sequences are joined, the text can be cut.
pub proof fn lemma_boundary_join(a: Seq<u8>, b: Seq<u8>)
    requires
        valid_utf8(a),
        valid_utf8(b),
    ensures
        valid_utf8(a + b),
        is_char_boundary(a + b, a.len() as int),
{
    valid_utf8_concat(a, b);
    let j = a + b;
    if b.len() > 0 {
        assert(valid_first_scalar(b));
        assert(j[a.len() as int] == b[0]);
        is_char_boundary_iff_not_is_continuation_byte(j, a.len() as int);
    } else {
        assert(j =~= a);
        is_char_boundary_start_end_of_seq(j);
    }
}

/// A valid sequence between the encodings of two texts is valid.
pub proof fn lemma_wrap_valid(a: Seq<char>, m: Seq<u8>, c: Seq<char>)
    requires
        valid_utf8(m),
    ensures
        valid_utf8(encode_utf8(a) + m + encode_utf8(c)),
{
    encode_utf8_valid_utf8(a);
    encode_utf8_valid_utf8(c);
    valid_utf8_concat(encode_utf8(a), m);
    valid_utf8_concat(encode_utf8(a) + m, encode_utf8(c));
}

/// Two valid sequences set between the encodings of three texts give a
/// valid sequence.
pub proof fn lemma_wrap2_valid(a: Seq<char>, m1: Seq<u8>, c: Seq<char>, m2: Seq<u8>, e: Seq<char>)
    requires
        valid_utf8(m1),
        valid_utf8(m2),
    ensures
        valid_utf8(encode_utf8(a) + m1 + encode_utf8(c) + m2 + encode_utf8(e)),
{
    lemma_wrap_valid(a, m1, c);
    encode_utf8_valid_utf8(e);
    valid_utf8_concat(encode_utf8(a) + m1 + encode_utf8(c), m2);
    valid_utf8_concat(encode_utf8(a) + m1 + encode_utf8(c) + m2, encode_utf8(e));
}

/// If a valid sequence starts with a valid prefix, the text can be cut
/// where the prefix ends.
pub proof fn lemma_prefix_boundary(s: Seq<u8>, p: Seq<u8>)
    requires
        valid_utf8(s),
        valid_utf8(p),
        p.len() <= s.len(),
        s.take(p.len() as int) == p,
    ensures
        is_char_boundary(s, p.len() as int),
    decreases p.len(),
{
    if p.len() > 0 {
        assert(s[0] == p[0]) by {
            assert(s.take(p.len() as int)[0] == s[0]);
        }
        let n = length_of_first_scalar(p);
        assert(length_of_first_scalar(s) == n);
        let sp = pop_first_scalar(s);
        let pp = pop_first_scalar(p);
        assert(sp.take(pp.len() as int) =~= pp) by {
            assert forall|k: int| 0 <= k < pp.len() implies sp[k] == pp[k] by {
                assert(sp[k] == s[n + k]);
                assert(pp[k] == p[n + k]);
                assert(s.take(p.len() as int)[n + k] == s[n + k]);
            }
        }
        lemma_prefix_boundary(sp, pp);
    }
}

/// `trim_start` keeps a suffix of its input.
pub proof fn lemma_trim_start_suffix(s: Seq<u8>)
    ensures
        trim_start(s).len() <= s.len(),
        trim_start(s) == s.skip(s.len() - trim_start(s).len()),
    decreases s.len(),
{
    let k = ws_prefix_len(s);
    if k > 0 {
        lemma_trim_start_suffix(s.skip(k));
        assert(s.skip(k).skip(s.skip(k).len() - trim_start(s.skip(k)).len()) =~= s.skip(
            s.len() - trim_start(s).len(),
        ));
    } else {
        assert(s.skip(0) =~= s);
    }
}

/// `trim_end` keeps a prefix of its input, and what it removes starts
/// where the text can be cut.
pub proof fn lemma_trim_end_prefix(s: Seq<u8>)
    ensures
        trim_end(s).len() <= s.len(),
        trim_end(s) == s.take(trim_end(s).len() as int),
        trim_end(s).len() < s.len() ==> !(0x80 <= s[trim_end(s).len() as int] < 0xc0),
    decreases s.len(),
{
    let k = ws_suffix_len(s);
    if k > 0 {
        let n = s.len() as int;
        let t = s.take(n - k);
        lemma_trim_end_prefix(t);
        assert(t.take(trim_end(t).len() as int) =~= s.take(trim_end(t).len() as int));
        if trim_end(t).len() < t.len() {
            assert(t[trim_end(t).len() as int] == s[trim_end(t).len() as int]);
        }
    } else {
        assert(s.take(s.len() as int) =~= s);
    }
}

} // verus!
