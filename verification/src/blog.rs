//! Blog posts kept as Markdown files with front matter: parsing a post,
//! ordering posts by their numeric id, and the path helpers.

use vstd::prelude::*;
use vstd::string::StringSliceAdditionalSpecFns;
use vstd::utf8::{
    decode_utf8, decode_utf8_split, encode_utf8, encode_utf8_decode_utf8, valid_first_scalar,
    valid_utf8,
};

use crate::bytes::{
    bytes_to_string, push_range, push_str, spec_is_digit, trim, trim_bounds, COLON,
    DIGIT_0, DOT, HYPHEN, LINE_FEED, PLUS, SLASH,
};
use crate::scan::{find_byte, lemma_find_byte_bounds, range_eq_str, spec_find_byte};
use crate::line_index::on_char_boundary;
use crate::text::{
    lemma_after_ascii, lemma_ascii_decode, lemma_boundary_join, lemma_cut_valid,
    lemma_encoded_valid, lemma_first_byte_ascii, lemma_join_valid, lemma_trim_valid,
};

verus! {

/// The front-matter fields of a post.
#[derive(Clone, Debug, PartialEq, Eq)]
pub struct PostMeta {
    pub id: String,
    pub title: String,
    pub description: String,
    pub created_at: String,
}

/// A post: its Markdown file name, front matter and Markdown body.
#[derive(Clone, Debug, PartialEq, Eq)]
pub struct Post {
    pub file_name: String,
    pub meta: PostMeta,
    pub body: String,
}

/// The value of a run of decimal digits.
pub open spec fn digits_value(s: Seq<u8>) -> int
    decreases s.len(),
{
    if s.len() == 0 {
        0
    } else {
        digits_value(s.drop_last()) * 10 + (s.last() - DIGIT_0)
    }
}

pub open spec fn all_digits(s: Seq<u8>) -> bool {
    forall|k: int| 0 <= k < s.len() ==> spec_is_digit(#[trigger] s[k])
}

/// What `str::parse::<i32>` accepts: an optional `+` or `-`, then at least
/// one ASCII digit and nothing else, with a value in range.
pub open spec fn spec_parse_i32(s: Seq<u8>) -> Option<int> {
    let neg = s.len() > 0 && s[0] == HYPHEN;
    let signed = s.len() > 0 && (s[0] == HYPHEN || s[0] == PLUS);
    let ds = if signed {
        s.skip(1)
    } else {
        s
    };
    if ds.len() == 0 || !all_digits(ds) {
        None
    } else {
        let v = if neg {
            -digits_value(ds)
        } else {
            digits_value(ds)
        };
        if i32::MIN <= v <= i32::MAX {
            Some(v)
        } else {
            None
        }
    }
}

proof fn lemma_digits_value_nonneg(s: Seq<u8>)
    requires
        all_digits(s),
    ensures
        digits_value(s) >= 0,
    decreases s.len(),
{
    if s.len() > 0 {
        assert(spec_is_digit(s[s.len() - 1]));
        assert(all_digits(s.drop_last())) by {
            assert forall|k: int| 0 <= k < s.drop_last().len() implies spec_is_digit(
                #[trigger] s.drop_last()[k],
            ) by {
                assert(s.drop_last()[k] == s[k]);
            }
        }
        lemma_digits_value_nonneg(s.drop_last());
    }
}

/// The bound past which the digit value no longer matters.
const DIGITS_CAP: u64 = 0x8000_0001;

/// Parses the decimal `i32` that the bytes `s` spell.
pub fn parse_i32(s: &[u8]) -> (r: Option<i32>)
    ensures
        match r {
            Some(v) => spec_parse_i32(s@) == Some(v as int),
            None => spec_parse_i32(s@) is None,
        },
{
    let neg = s.len() > 0 && s[0] == HYPHEN;
    let signed = s.len() > 0 && (s[0] == HYPHEN || s[0] == PLUS);
    let start: usize = if signed {
        1
    } else {
        0
    };
    let ghost ds = s@.skip(start as int);
    if start == s.len() {
        return None;
    }
    let mut acc: u64 = 0;
    let mut k = start;
    while k < s.len()
        invariant
            start <= k <= s@.len(),
            start == (if s@.len() > 0 && (s@[0] == HYPHEN || s@[0] == PLUS) {
                1int
            } else {
                0int
            }),
            ds == s@.skip(start as int),
            all_digits(s@.subrange(start as int, k as int)),
            acc as int == if digits_value(s@.subrange(start as int, k as int)) < DIGITS_CAP {
                digits_value(s@.subrange(start as int, k as int))
            } else {
                DIGITS_CAP as int
            },
        decreases s@.len() - k,
    {
        let c = s[k];
        if !(DIGIT_0 <= c && c <= 0x39) {
            proof {
                assert(ds[k - start] == c);
                assert(!spec_is_digit(ds[k - start]));
            }
            return None;
        }
        let ghost prev = s@.subrange(start as int, k as int);
        let ghost next = s@.subrange(start as int, k + 1);
        proof {
            assert(next.drop_last() =~= prev);
            assert(next.last() == c);
            assert forall|m: int| 0 <= m < next.len() implies spec_is_digit(#[trigger] next[m]) by {
                if m < prev.len() {
                    assert(next[m] == prev[m]);
                }
            }
            lemma_digits_value_nonneg(prev);
        }
        let d = (c - DIGIT_0) as u64;
        let grown = acc * 10 + d;
        acc = if grown < DIGITS_CAP {
            grown
        } else {
            DIGITS_CAP
        };
        k = k + 1;
    }
    proof {
        assert(s@.subrange(start as int, s@.len() as int) =~= ds);
        lemma_digits_value_nonneg(ds);
        assert(ds.len() > 0);
        assert(neg == (s@.len() > 0 && s@[0] == HYPHEN));
    }
    let ghost dv = digits_value(ds);
    assert(acc as int == if dv < DIGITS_CAP {
        dv
    } else {
        DIGITS_CAP as int
    });
    if neg {
        if acc <= 0x8000_0000 {
            let v = 0 - (acc as i64);
            assert(spec_parse_i32(s@) == Some(-dv));
            Some(v as i32)
        } else {
            assert(spec_parse_i32(s@) is None);
            None
        }
    } else {
        assert(!(s@.len() > 0 && s@[0] == HYPHEN));
        assert(all_digits(ds));
        assert(ds == (if s@.len() > 0 && (s@[0] == HYPHEN || s@[0] == PLUS) {
            s@.skip(1)
        } else {
            s@
        }));
        if acc <= 0x7fff_ffff {
            assert(spec_parse_i32(s@) == Some(dv));
            Some(acc as i32)
        } else {
            assert(spec_parse_i32(s@) is None);
            None
        }
    }
}


/// The numeric id of a post: its `id` parsed as an `i32`, or 0.
#[verifier::opaque]
pub open spec fn id_number(p: Post) -> int {
    match spec_parse_i32(encode_utf8(p.meta.id@)) {
        Some(v) => v,
        None => 0,
    }
}

pub fn post_id_number(post: &Post) -> (r: i32)
    ensures
        r as int == id_number(*post),
{
    reveal(id_number);
    match parse_i32(post.meta.id.as_str().as_bytes()) {
        Some(v) => v,
        None => 0,
    }
}

/// `perm` lists each index below `n` exactly once.
pub open spec fn is_permutation(perm: Seq<int>, n: int) -> bool {
    &&& perm.len() == n
    &&& forall|i: int| 0 <= i < n ==> 0 <= #[trigger] perm[i] < n
    &&& forall|i: int, j: int| 0 <= i < n && 0 <= j < n && i != j ==> perm[i] != perm[j]
}

/// `out` is `inp` rearranged by `perm` into non-increasing order of `key`,
/// items with equal keys keeping their relative order.
pub open spec fn sorted_by_perm<T>(out: Seq<T>, inp: Seq<T>, perm: Seq<int>, key: spec_fn(T) -> int) -> bool {
    &&& is_permutation(perm, inp.len() as int)
    &&& out.len() == inp.len()
    &&& forall|i: int| 0 <= i < out.len() ==> out[i] == inp[#[trigger] perm[i]]
    &&& forall|i: int, j: int| 0 <= i < j < out.len() ==> key(out[i]) >= key(out[j])
    &&& forall|i: int, j: int|
        0 <= i < j < out.len() && key(out[i]) == key(out[j]) ==> perm[i] < perm[j]
}

/// `out` is the stable sort of `inp` by `key`, largest key first.
pub open spec fn stable_sorted_desc<T>(out: Seq<T>, inp: Seq<T>, key: spec_fn(T) -> int) -> bool {
    exists|perm: Seq<int>| sorted_by_perm(out, inp, perm, key)
}

/// What insertion sort keeps after placing the first `m` posts of `orig`.
pub open spec fn sort_inv(out: Seq<Post>, perm: Seq<int>, orig: Seq<Post>, m: int) -> bool {
    &&& 0 <= m <= orig.len()
    &&& out.len() == m
    &&& perm.len() == m
    &&& forall|i: int| 0 <= i < m ==> 0 <= #[trigger] perm[i] < m
    &&& forall|i: int, j: int| 0 <= i < m && 0 <= j < m && i != j ==> perm[i] != perm[j]
    &&& forall|i: int| 0 <= i < m ==> out[i] == orig[#[trigger] perm[i]]
    &&& forall|i: int, j: int| 0 <= i < j < m ==> id_number(out[i]) >= id_number(out[j])
    &&& forall|i: int, j: int|
        0 <= i < j < m && id_number(out[i]) == id_number(out[j]) ==> perm[i] < perm[j]
}

proof fn lemma_insert_keeps_perm(perm: Seq<int>, m: int, p: int)
    requires
        perm.len() == m,
        0 <= p <= m,
        forall|i: int| 0 <= i < m ==> 0 <= #[trigger] perm[i] < m,
        forall|i: int, j: int| 0 <= i < m && 0 <= j < m && i != j ==> perm[i] != perm[j],
    ensures
        forall|i: int| 0 <= i < m + 1 ==> 0 <= #[trigger] perm.insert(p, m)[i] < m + 1,
        forall|i: int, j: int|
            0 <= i < m + 1 && 0 <= j < m + 1 && i != j ==> perm.insert(p, m)[i] != perm.insert(
                p,
                m,
            )[j],
{
    let np = perm.insert(p, m);
    assert forall|i: int| 0 <= i < m + 1 implies 0 <= #[trigger] np[i] < m + 1 by {
        if i < p {
            assert(np[i] == perm[i]);
        } else if i > p {
            assert(np[i] == perm[i - 1]);
        }
    }
    assert forall|i: int, j: int| 0 <= i < m + 1 && 0 <= j < m + 1 && i != j implies np[i]
        != np[j] by {
        if i < p {
            assert(np[i] == perm[i]);
        } else if i > p {
            assert(np[i] == perm[i - 1]);
        }
        if j < p {
            assert(np[j] == perm[j]);
        } else if j > p {
            assert(np[j] == perm[j - 1]);
        }
    }
}

proof fn lemma_insert_keeps_order(out: Seq<Post>, perm: Seq<int>, orig: Seq<Post>, m: int, p: int)
    requires
        sort_inv(out, perm, orig, m),
        m < orig.len(),
        0 <= p <= m,
        forall|q: int| 0 <= q < p ==> id_number(#[trigger] out[q]) >= id_number(orig[m]),
        p < m ==> id_number(out[p]) < id_number(orig[m]),
    ensures
        forall|i: int, j: int|
            0 <= i < j < m + 1 ==> id_number(out.insert(p, orig[m])[i]) >= id_number(
                out.insert(p, orig[m])[j],
            ),
        forall|i: int, j: int|
            0 <= i < j < m + 1 && id_number(out.insert(p, orig[m])[i]) == id_number(
                out.insert(p, orig[m])[j],
            ) ==> perm.insert(p, m)[i] < perm.insert(p, m)[j],
{
    let no = out.insert(p, orig[m]);
    let np = perm.insert(p, m);
    assert forall|i: int, j: int| 0 <= i < j < m + 1 implies id_number(no[i]) >= id_number(
        no[j],
    ) && (id_number(no[i]) == id_number(no[j]) ==> np[i] < np[j]) by {
        if i < p {
            assert(no[i] == out[i]);
            assert(np[i] == perm[i]);
        } else if i > p {
            assert(no[i] == out[i - 1]);
            assert(np[i] == perm[i - 1]);
        }
        if j < p {
            assert(no[j] == out[j]);
            assert(np[j] == perm[j]);
        } else if j > p {
            assert(no[j] == out[j - 1]);
            assert(np[j] == perm[j - 1]);
        }
        if i == p && j > p {
            if j - 1 > p {
                assert(id_number(out[p]) >= id_number(out[j - 1]));
            }
        }
    }
}

proof fn lemma_insert_step(out: Seq<Post>, perm: Seq<int>, orig: Seq<Post>, m: int, p: int)
    requires
        sort_inv(out, perm, orig, m),
        m < orig.len(),
        0 <= p <= m,
        forall|q: int| 0 <= q < p ==> id_number(#[trigger] out[q]) >= id_number(orig[m]),
        p < m ==> id_number(out[p]) < id_number(orig[m]),
    ensures
        sort_inv(out.insert(p, orig[m]), perm.insert(p, m), orig, m + 1),
{
    lemma_insert_keeps_perm(perm, m, p);
    lemma_insert_keeps_order(out, perm, orig, m, p);
    let no = out.insert(p, orig[m]);
    let np = perm.insert(p, m);
    assert forall|i: int| 0 <= i < m + 1 implies no[i] == orig[#[trigger] np[i]] by {
        if i < p {
            assert(no[i] == out[i]);
            assert(np[i] == perm[i]);
        } else if i > p {
            assert(no[i] == out[i - 1]);
            assert(np[i] == perm[i - 1]);
        }
    }
}

proof fn lemma_increasing_perm_is_identity(perm: Seq<int>, n: int)
    requires
        is_permutation(perm, n),
        forall|i: int, j: int| 0 <= i < j < n ==> perm[i] < perm[j],
    ensures
        forall|i: int| 0 <= i < n ==> perm[i] == i,
{
    assert forall|i: int| 0 <= i < n implies perm[i] >= i by {
        lemma_increasing_lower(perm, n, i);
    }
    assert forall|i: int| 0 <= i < n implies perm[i] <= i by {
        lemma_increasing_upper(perm, n, i);
    }
}

proof fn lemma_increasing_lower(perm: Seq<int>, n: int, i: int)
    requires
        is_permutation(perm, n),
        forall|a: int, b: int| 0 <= a < b < n ==> perm[a] < perm[b],
        0 <= i < n,
    ensures
        perm[i] >= i,
    decreases i,
{
    if i > 0 {
        lemma_increasing_lower(perm, n, i - 1);
        assert(perm[i - 1] < perm[i]);
    } else {
        assert(0 <= perm[0]);
    }
}

proof fn lemma_increasing_upper(perm: Seq<int>, n: int, i: int)
    requires
        is_permutation(perm, n),
        forall|a: int, b: int| 0 <= a < b < n ==> perm[a] < perm[b],
        0 <= i < n,
    ensures
        perm[i] <= i,
    decreases n - i,
{
    if i < n - 1 {
        lemma_increasing_upper_gap(perm, n, i);
    } else {
        assert(perm[i] < n);
    }
}

proof fn lemma_increasing_upper_gap(perm: Seq<int>, n: int, i: int)
    requires
        is_permutation(perm, n),
        forall|a: int, b: int| 0 <= a < b < n ==> perm[a] < perm[b],
        0 <= i < n,
    ensures
        perm[i] <= n - 1 - (n - 1 - i),
    decreases n - i,
{
    if i < n - 1 {
        lemma_increasing_upper_gap(perm, n, i + 1);
        assert(perm[i] < perm[i + 1]);
    } else {
        assert(perm[i] < n);
    }
}

/// Sorting items that are already in non-increasing key order leaves them
/// as they are.
pub proof fn law_sorted_input_kept<T>(out: Seq<T>, inp: Seq<T>, key: spec_fn(T) -> int)
    requires
        forall|i: int, j: int| 0 <= i < j < inp.len() ==> key(inp[i]) >= key(inp[j]),
        stable_sorted_desc(out, inp, key),
    ensures
        out == inp,
{
    let perm = choose|perm: Seq<int>| #[trigger] sorted_by_perm(out, inp, perm, key);
    let n = inp.len() as int;
    assert forall|i: int, j: int| 0 <= i < j < n implies perm[i] < perm[j] by {
        assert(out[i] == inp[perm[i]]);
        assert(out[j] == inp[perm[j]]);
        assert(0 <= perm[i] < n && 0 <= perm[j] < n);
        assert(perm[i] != perm[j]);
        if perm[i] > perm[j] {
            assert(key(inp[perm[j]]) >= key(inp[perm[i]]));
        }
    }
    lemma_increasing_perm_is_identity(perm, n);
    assert forall|i: int| 0 <= i < n implies out[i] == inp[i] by {
        assert(out[i] == inp[perm[i]]);
    }
    assert(out =~= inp);
}

/// The posts of `input` ordered by numeric id, largest first; posts with
/// equal ids keep their order.
fn sorted_posts_desc(input: Vec<Post>) -> (out: Vec<Post>)
    ensures
        stable_sorted_desc(out@, input@, |p: Post| id_number(p)),
{
    let mut input = input;
    let ghost orig = input@;
    let mut out: Vec<Post> = Vec::new();
    let ghost mut perm: Seq<int> = seq![];
    let ghost mut m: int = 0;
    assert(orig.skip(0) =~= orig);
    while input.len() > 0
        invariant
            input@ == orig.skip(m),
            sort_inv(out@, perm, orig, m),
        decreases input@.len(),
    {
        let x = input.remove(0);
        assert(x == orig[m]);
        assert(input@ =~= orig.skip(m + 1));
        let kx = post_id_number(&x);
        let mut p: usize = 0;
        while p < out.len() && post_id_number(&out[p]) >= kx
            invariant
                p <= out@.len(),
                forall|q: int| 0 <= q < p ==> id_number(#[trigger] out@[q]) >= kx,
            decreases out@.len() - p,
        {
            p = p + 1;
        }
        proof {
            lemma_insert_step(out@, perm, orig, m, p as int);
            perm = perm.insert(p as int, m);
            m = m + 1;
        }
        out.insert(p, x);
    }
    proof {
        assert(sorted_by_perm(out@, orig, perm, |p: Post| id_number(p)));
    }
    out
}

/// A post with every field empty, to stand in a slot while its post is
/// being moved.
fn blank_post() -> (r: Post)
    ensures
        post_view(r) == (PostView {
            file_name: Seq::empty(),
            id: Seq::empty(),
            title: Seq::empty(),
            description: Seq::empty(),
            created_at: Seq::empty(),
            body: Seq::empty(),
        }),
{
    Post {
        file_name: String::new(),
        meta: PostMeta {
            id: String::new(),
            title: String::new(),
            description: String::new(),
            created_at: String::new(),
        },
        body: String::new(),
    }
}

/// Takes the post at `k` out of `posts`, leaving `filler` in its place.
fn take_post(posts: &mut [Post], k: usize, filler: Post) -> (r: Post)
    requires
        k < old(posts)@.len(),
    ensures
        r == old(posts)@[k as int],
        final(posts)@ == old(posts)@.update(k as int, filler),
{
    let mut taken = filler;
    std::mem::swap(&mut posts[k], &mut taken);
    taken
}

/// Orders posts by numeric id, largest first; posts with equal ids keep
/// their order.
pub fn sort_posts_desc(posts: &mut [Post])
    ensures
        stable_sorted_desc(final(posts)@, old(posts)@, |p: Post| id_number(p)),
{
    let ghost orig = posts@;
    let n = posts.len();
    let mut input: Vec<Post> = Vec::new();
    let mut k: usize = 0;
    while k < n
        invariant
            n == orig.len(),
            posts@.len() == n,
            k <= n,
            input@ == orig.take(k as int),
            posts@.skip(k as int) == orig.skip(k as int),
        decreases n - k,
    {
        let ghost prev = posts@;
        assert(prev[k as int] == prev.skip(k as int)[0]);
        let p = take_post(posts, k, blank_post());
        input.push(p);
        proof {
            assert(input@ =~= orig.take(k + 1));
            assert forall|i: int| 0 <= i < n - (k + 1) implies #[trigger] posts@.skip(k + 1)[i]
                == orig.skip(k + 1)[i] by {
                assert(posts@[k + 1 + i] == prev[k + 1 + i]);
                assert(prev[k + 1 + i] == prev.skip(k as int)[i + 1]);
            }
            assert(posts@.skip(k + 1) =~= orig.skip(k + 1));
        }
        k = k + 1;
    }
    assert(input@ =~= orig);
    let sorted = sorted_posts_desc(input);
    let ghost target = sorted@;
    let mut out = sorted;
    let mut k: usize = n;
    while k > 0
        invariant
            target.len() == n,
            posts@.len() == n,
            k <= n,
            out@ == target.take(k as int),
            posts@.skip(k as int) == target.skip(k as int),
        decreases k,
    {
        let ghost before = out@;
        let x = out.pop().unwrap();
        assert(x == target[k - 1]) by {
            assert(before[k - 1] == target.take(k as int)[k - 1]);
        }
        k = k - 1;
        let ghost prev = posts@;
        posts[k] = x;
        proof {
            assert(out@ =~= target.take(k as int));
            assert forall|i: int| 0 <= i < n - k implies #[trigger] posts@.skip(k as int)[i]
                == target.skip(k as int)[i] by {
                if i > 0 {
                    assert(posts@[k + i] == prev[k + i]);
                    assert(prev[k + i] == prev.skip(k + 1)[i - 1]);
                }
            }
            assert(posts@.skip(k as int) =~= target.skip(k as int));
        }
    }
    assert(posts@ =~= posts@.skip(0));
    assert(target =~= target.skip(0));
}


pub const DELIMITER: &'static str = "---";

/// End of the line that starts at `p`: its line feed, or the text's end.
pub open spec fn line_end(m: Seq<u8>, p: int) -> int {
    match spec_find_byte(m, p, LINE_FEED) {
        Some(e) => e,
        None => m.len() as int,
    }
}

/// A front-matter delimiter line: `---`, give or take surrounding whitespace.
pub open spec fn is_delimiter_line(line: Seq<u8>) -> bool {
    trim(line) == DELIMITER.spec_bytes()
}

/// The recognised front-matter fields, as UTF-8 bytes.
pub ghost struct FrontFields {
    pub id: Option<Seq<u8>>,
    pub title: Option<Seq<u8>>,
    pub description: Option<Seq<u8>>,
    pub created_at: Option<Seq<u8>>,
}

pub open spec fn no_fields() -> FrontFields {
    FrontFields { id: None, title: None, description: None, created_at: None }
}

/// A front-matter line `key: value` sets a recognised key (trimmed) to the
/// trimmed value; a later line with the same key wins; other lines are
/// ignored.
pub open spec fn apply_line(f: FrontFields, line: Seq<u8>) -> FrontFields {
    match spec_find_byte(line, 0, COLON) {
        None => f,
        Some(c) => {
            let key = trim(line.take(c));
            let value = trim(line.skip(c + 1));
            if key == "id".spec_bytes() {
                FrontFields { id: Some(value), ..f }
            } else if key == "title".spec_bytes() {
                FrontFields { title: Some(value), ..f }
            } else if key == "description".spec_bytes() {
                FrontFields { description: Some(value), ..f }
            } else if key == "created_at".spec_bytes() {
                FrontFields { created_at: Some(value), ..f }
            } else {
                f
            }
        },
    }
}

/// The front-matter lines from `p` up to the closing delimiter: the fields
/// and where the body starts, or `None` when no delimiter closes them.
pub open spec fn scan_front(m: Seq<u8>, p: int, f: FrontFields) -> Option<(FrontFields, int)>
    decreases m.len() + 1 - p,
{
    if p < 0 || p >= m.len() {
        None
    } else {
        let e = line_end(m, p);
        proof {
            lemma_find_byte_bounds(m, p, LINE_FEED);
        }
        let line = m.subrange(p, e);
        if is_delimiter_line(line) {
            Some(
                (
                    f,
                    if e < m.len() {
                        e + 1
                    } else {
                        m.len() as int
                    },
                ),
            )
        } else {
            scan_front(m, e + 1, apply_line(f, line))
        }
    }
}

/// A Markdown text's front matter: a delimiter line first, fields, and a
/// second delimiter line; `None` when the text has none.
pub open spec fn spec_frontmatter(m: Seq<u8>) -> Option<(FrontFields, int)> {
    if m.len() > 0 && is_delimiter_line(m.subrange(0, line_end(m, 0))) {
        scan_front(m, line_end(m, 0) + 1, no_fields())
    } else {
        None
    }
}

/// The fields of a text's front matter (none without front matter).
pub open spec fn spec_front_fields(m: Seq<u8>) -> FrontFields {
    match spec_frontmatter(m) {
        Some((f, _)) => f,
        None => no_fields(),
    }
}

/// Every field that is set holds valid UTF-8.
pub open spec fn fields_valid(f: FrontFields) -> bool {
    &&& f.id matches Some(v) ==> valid_utf8(v)
    &&& f.title matches Some(v) ==> valid_utf8(v)
    &&& f.description matches Some(v) ==> valid_utf8(v)
    &&& f.created_at matches Some(v) ==> valid_utf8(v)
}

proof fn lemma_apply_line_valid(f: FrontFields, line: Seq<u8>)
    requires
        valid_utf8(line),
        fields_valid(f),
    ensures
        fields_valid(apply_line(f, line)),
{
    lemma_find_byte_bounds(line, 0, COLON);
    if let Some(c) = spec_find_byte(line, 0, COLON) {
        lemma_after_ascii(line, c);
        lemma_cut_valid(line, c + 1, line.len() as int);
        assert(line.subrange(c + 1, line.len() as int) =~= line.skip(c + 1));
        lemma_trim_valid(line.skip(c + 1));
    }
}

proof fn lemma_scan_front_valid(m: Seq<u8>, p: int, f: FrontFields)
    requires
        valid_utf8(m),
        0 <= p,
        on_char_boundary(m, p),
        fields_valid(f),
    ensures
        scan_front(m, p, f) matches Some((g, bs)) ==> fields_valid(g) && 0 <= bs <= m.len()
            && on_char_boundary(m, bs),
    decreases m.len() + 1 - p,
{
    if p < m.len() {
        let e = line_end(m, p);
        lemma_find_byte_bounds(m, p, LINE_FEED);
        lemma_cut_valid(m, p, e);
        let line = m.subrange(p, e);
        if e < m.len() {
            lemma_after_ascii(m, e);
        }
        if !is_delimiter_line(line) {
            lemma_apply_line_valid(f, line);
            lemma_scan_front_valid(m, e + 1, apply_line(f, line));
        }
    }
}

/// The front matter of a text is text: each field it sets, and the body
/// that follows it, is valid UTF-8.
pub proof fn lemma_front_matter_is_text(md: Seq<char>)
    ensures
        fields_valid(spec_front_fields(encode_utf8(md))),
        spec_frontmatter(encode_utf8(md)) matches Some((_, bs)) ==> 0 <= bs <= encode_utf8(md).len()
            && valid_utf8(encode_utf8(md).skip(bs)),
{
    let m = encode_utf8(md);
    lemma_encoded_valid(md);
    if m.len() > 0 {
        let e = line_end(m, 0);
        lemma_find_byte_bounds(m, 0, LINE_FEED);
        if e < m.len() {
            lemma_after_ascii(m, e);
        }
        lemma_scan_front_valid(m, e + 1, no_fields());
        if let Some((_, bs)) = spec_frontmatter(m) {
            lemma_cut_valid(m, bs, m.len() as int);
            assert(m.subrange(bs, m.len() as int) =~= m.skip(bs));
        }
    }
}

/// The recognised front-matter fields of a post.
#[derive(Clone, Debug, PartialEq, Eq)]
pub struct Frontmatter {
    pub id: Option<String>,
    pub title: Option<String>,
    pub description: Option<String>,
    pub created_at: Option<String>,
}

pub open spec fn opt_text(o: Option<Seq<u8>>) -> Option<Seq<char>> {
    match o {
        Some(b) => Some(decode_utf8(b)),
        None => None,
    }
}

pub open spec fn opt_string_view(o: Option<String>) -> Option<Seq<char>> {
    match o {
        Some(s) => Some(s@),
        None => None,
    }
}

/// Field spans found so far, as byte ranges of the text.
struct FieldRanges {
    id: Option<(usize, usize)>,
    title: Option<(usize, usize)>,
    description: Option<(usize, usize)>,
    created_at: Option<(usize, usize)>,
}

spec fn range_text(m: Seq<u8>, r: Option<(usize, usize)>) -> Option<Seq<u8>> {
    match r {
        Some((a, b)) => Some(m.subrange(a as int, b as int)),
        None => None,
    }
}

spec fn ranges_ok(m: Seq<u8>, r: Option<(usize, usize)>) -> bool {
    r matches Some((a, b)) ==> a <= b <= m.len()
}

spec fn ranges_match(m: Seq<u8>, fr: FieldRanges, f: FrontFields) -> bool {
    &&& ranges_ok(m, fr.id) && range_text(m, fr.id) == f.id
    &&& ranges_ok(m, fr.title) && range_text(m, fr.title) == f.title
    &&& ranges_ok(m, fr.description) && range_text(m, fr.description) == f.description
    &&& ranges_ok(m, fr.created_at) && range_text(m, fr.created_at) == f.created_at
}

/// Whether `m[a..b]` is a delimiter line.
fn delimiter_at(m: &[u8], a: usize, b: usize) -> (r: bool)
    requires
        a <= b <= m@.len(),
    ensures
        r == is_delimiter_line(m@.subrange(a as int, b as int)),
{
    let (s, e) = trim_bounds(m, a, b);
    range_eq_str(m, s, e, DELIMITER)
}

fn line_end_exec(m: &[u8], p: usize) -> (e: usize)
    requires
        p <= m@.len(),
    ensures
        e == line_end(m@, p as int),
        p <= e <= m@.len(),
{
    proof {
        lemma_find_byte_bounds(m@, p as int, LINE_FEED);
    }
    match find_byte(m, p, LINE_FEED) {
        Some(e) => e,
        None => m.len(),
    }
}

fn apply_line_exec(m: &[u8], a: usize, b: usize, fr: &mut FieldRanges, Ghost(f): Ghost<FrontFields>)
    requires
        a <= b <= m@.len(),
        ranges_match(m@, *old(fr), f),
    ensures
        ranges_match(m@, *final(fr), apply_line(f, m@.subrange(a as int, b as int))),
{
    let ghost line = m@.subrange(a as int, b as int);
    proof {
        lemma_find_byte_bounds(m@, a as int, COLON);
        lemma_find_byte_bounds(line, 0, COLON);
        lemma_find_byte_offset(m@, a as int, b as int, COLON);
    }
    let found = find_byte(m, a, COLON);
    let c = match found {
        Some(c) => c,
        None => b,
    };
    if c >= b {
        assert(spec_find_byte(line, 0, COLON) is None);
        assert(apply_line(f, line) == f);
        return ;
    }
    let (ka, kz) = trim_bounds(m, a, c);
    let (va, vz) = trim_bounds(m, c + 1, b);
    proof {
        assert(line.take(c - a) =~= m@.subrange(a as int, c as int));
        assert(line.skip(c - a + 1) =~= m@.subrange(c + 1, b as int));
    }
    if range_eq_str(m, ka, kz, "id") {
        fr.id = Some((va, vz));
    } else if range_eq_str(m, ka, kz, "title") {
        fr.title = Some((va, vz));
    } else if range_eq_str(m, ka, kz, "description") {
        fr.description = Some((va, vz));
    } else if range_eq_str(m, ka, kz, "created_at") {
        fr.created_at = Some((va, vz));
    }
}

/// Finding a byte in a line `m[a..b]` is finding it in `m` from `a`, before `b`.
proof fn lemma_find_byte_offset(m: Seq<u8>, a: int, b: int, c: u8)
    requires
        0 <= a <= b <= m.len(),
    ensures
        match spec_find_byte(m.subrange(a, b), 0, c) {
            Some(k) => spec_find_byte(m, a, c) == Some(a + k),
            None => spec_find_byte(m, a, c) matches Some(q) ==> q >= b,
        },
    decreases b - a,
{
    lemma_find_byte_from(m.subrange(a, b), 0, c);
    lemma_find_byte_bounds(m, a, c);
    if a < b {
        if m[a] != c {
            lemma_find_byte_offset(m, a + 1, b, c);
            assert(m.subrange(a + 1, b) =~= m.subrange(a, b).skip(1));
            lemma_find_byte_shift(m.subrange(a, b), c);
        } else {
            assert(m.subrange(a, b)[0] == c);
        }
    } else {
        assert(m.subrange(a, b).len() == 0);
    }
}

proof fn lemma_find_byte_from(s: Seq<u8>, i: int, c: u8)
    ensures
        spec_find_byte(s, i, c) matches Some(k) ==> i <= k < s.len(),
{
    lemma_find_byte_bounds(s, i, c);
}

/// Searching `s` from 1 is searching `s.skip(1)` from 0, shifted by one.
proof fn lemma_find_byte_shift(s: Seq<u8>, c: u8)
    requires
        s.len() > 0,
        s[0] != c,
    ensures
        spec_find_byte(s, 0, c) == match spec_find_byte(s.skip(1), 0, c) {
            Some(k) => Some(k + 1),
            None => None::<int>,
        },
{
    lemma_find_byte_shift_from(s, 1, c);
}

proof fn lemma_find_byte_shift_from(s: Seq<u8>, i: int, c: u8)
    requires
        1 <= i <= s.len(),
    ensures
        spec_find_byte(s, i, c) == match spec_find_byte(s.skip(1), i - 1, c) {
            Some(k) => Some(k + 1),
            None => None::<int>,
        },
    decreases s.len() - i,
{
    if i < s.len() {
        assert(s.skip(1)[i - 1] == s[i]);
        if s[i] != c {
            lemma_find_byte_shift_from(s, i + 1, c);
        }
    }
}


fn frontmatter_ranges(m: &[u8]) -> (r: Option<(FieldRanges, usize)>)
    ensures
        match r {
            Some((fr, bs)) => spec_frontmatter(m@) matches Some((f, s)) && ranges_match(m@, fr, f)
                && bs == s && bs <= m@.len(),
            None => spec_frontmatter(m@) is None,
        },
{
    if m.len() == 0 {
        return None;
    }
    let e0 = line_end_exec(m, 0);
    if !delimiter_at(m, 0, e0) {
        return None;
    }
    let mut fr = FieldRanges { id: None, title: None, description: None, created_at: None };
    let ghost mut f = no_fields();
    if e0 >= m.len() {
        return None;
    }
    let mut p = e0 + 1;
    while p < m.len()
        invariant
            p <= m@.len() + 1,
            m@.len() > 0,
            is_delimiter_line(m@.subrange(0, line_end(m@, 0))),
            spec_frontmatter(m@) == scan_front(m@, p as int, f),
            ranges_match(m@, fr, f),
        decreases m@.len() + 1 - p,
    {
        let e = line_end_exec(m, p);
        if delimiter_at(m, p, e) {
            let body_start = if e < m.len() {
                e + 1
            } else {
                m.len()
            };
            return Some((fr, body_start));
        }
        apply_line_exec(m, p, e, &mut fr, Ghost(f));
        let ghost prev = f;
        proof {
            f = apply_line(f, m@.subrange(p as int, e as int));
            assert(scan_front(m@, p as int, prev) == scan_front(m@, e + 1, f));
        }
        if e >= m.len() {
            assert(scan_front(m@, e + 1, f) is None);
            return None;
        }
        p = e + 1;
    }
    None
}

fn range_string(m: &[u8], r: Option<(usize, usize)>) -> (s: Option<String>)
    requires
        ranges_ok(m@, r),
        range_text(m@, r) matches Some(v) ==> valid_utf8(v),
    ensures
        opt_string_view(s) == opt_text(range_text(m@, r)),
{
    match r {
        Some((a, b)) => Some(bytes_to_string(vstd::slice::slice_to_vec(vstd::slice::slice_subrange(m, a, b)))),
        None => None,
    }
}

/// The recognised front-matter fields of a Markdown text (`id`, `title`,
/// `description`, `created_at`), each `None` when absent.
pub fn get_frontmatter(md: &str) -> (r: Frontmatter)
    ensures
        opt_string_view(r.id) == opt_text(spec_front_fields(md.spec_bytes()).id),
        opt_string_view(r.title) == opt_text(spec_front_fields(md.spec_bytes()).title),
        opt_string_view(r.description) == opt_text(spec_front_fields(md.spec_bytes()).description),
        opt_string_view(r.created_at) == opt_text(spec_front_fields(md.spec_bytes()).created_at),
{
    let m = md.as_bytes();
    proof {
        lemma_front_matter_is_text(md@);
    }
    match frontmatter_ranges(m) {
        Some((fr, _)) => Frontmatter {
            id: range_string(m, fr.id),
            title: range_string(m, fr.title),
            description: range_string(m, fr.description),
            created_at: range_string(m, fr.created_at),
        },
        None => Frontmatter { id: None, title: None, description: None, created_at: None },
    }
}

/// The Markdown body without its front matter.
pub open spec fn spec_remove_frontmatter(md: Seq<char>) -> Seq<char> {
    match spec_frontmatter(encode_utf8(md)) {
        Some((_, bs)) => decode_utf8(encode_utf8(md).skip(bs)),
        None => md,
    }
}

/// The Markdown text after its front matter (all of it when there is none).
pub fn remove_frontmatter(md: &str) -> (r: String)
    ensures
        r@ == spec_remove_frontmatter(md@),
{
    let m = md.as_bytes();
    proof {
        lemma_front_matter_is_text(md@);
    }
    match frontmatter_ranges(m) {
        Some((_, bs)) => {
            let body = bytes_to_string(vstd::slice::slice_to_vec(vstd::slice::slice_subrange(m, bs, m.len())));
            assert(m@.subrange(bs as int, m@.len() as int) =~= m@.skip(bs as int));
            body
        },
        None => md.to_string(),
    }
}

/// The text of a post, field by field.
pub ghost struct PostView {
    pub file_name: Seq<char>,
    pub id: Seq<char>,
    pub title: Seq<char>,
    pub description: Seq<char>,
    pub created_at: Seq<char>,
    pub body: Seq<char>,
}

pub open spec fn post_view(p: Post) -> PostView {
    PostView {
        file_name: p.file_name@,
        id: p.meta.id@,
        title: p.meta.title@,
        description: p.meta.description@,
        created_at: p.meta.created_at@,
        body: p.body@,
    }
}

pub open spec fn posts_view(s: Seq<Post>) -> Seq<PostView> {
    s.map_values(|p: Post| post_view(p))
}

/// The post that a Markdown file holds: `None` unless its front matter has
/// `id`, `title` and `created_at`; `description` defaults to empty.
pub open spec fn spec_read_post(file_name: Seq<char>, md: Seq<char>) -> Option<PostView> {
    let f = spec_front_fields(encode_utf8(md));
    if f.id is Some && f.title is Some && f.created_at is Some {
        Some(
            PostView {
                file_name,
                id: decode_utf8(f.id->0),
                title: decode_utf8(f.title->0),
                description: match f.description {
                    Some(d) => decode_utf8(d),
                    None => seq![],
                },
                created_at: decode_utf8(f.created_at->0),
                body: spec_remove_frontmatter(md),
            },
        )
    } else {
        None
    }
}

/// Reads one post from its file name and Markdown text.
pub fn read_post(md_file: &str, md: &str) -> (r: Option<Post>)
    ensures
        match r {
            Some(p) => spec_read_post(md_file@, md@) == Some(post_view(p)),
            None => spec_read_post(md_file@, md@) is None,
        },
{
    let frontmatter = get_frontmatter(md);
    let id = match frontmatter.id {
        Some(v) => v,
        None => {
            return None;
        },
    };
    let title = match frontmatter.title {
        Some(v) => v,
        None => {
            return None;
        },
    };
    let created_at = match frontmatter.created_at {
        Some(v) => v,
        None => {
            return None;
        },
    };
    let description = match frontmatter.description {
        Some(v) => v,
        None => String::new(),
    };
    let body = remove_frontmatter(md);
    Some(
        Post {
            file_name: md_file.to_string(),
            meta: PostMeta { id, title, description, created_at },
            body,
        },
    )
}

/// The posts that a list of (file name, Markdown text) sources hold, in
/// source order.
pub open spec fn spec_posts(sources: Seq<(Seq<char>, Seq<char>)>) -> Seq<PostView>
    decreases sources.len(),
{
    if sources.len() == 0 {
        seq![]
    } else {
        spec_posts(sources.drop_last()) + match spec_read_post(
            sources.last().0,
            sources.last().1,
        ) {
            Some(v) => seq![v],
            None => seq![],
        }
    }
}

pub open spec fn sources_view(s: Seq<(String, String)>) -> Seq<(Seq<char>, Seq<char>)> {
    s.map_values(|e: (String, String)| (e.0@, e.1@))
}

/// The numeric id of a post's text: its `id` parsed as an `i32`, or 0.
pub open spec fn view_id_number(v: PostView) -> int {
    match spec_parse_i32(encode_utf8(v.id)) {
        Some(n) => n,
        None => 0,
    }
}

proof fn lemma_sorted_views(out: Seq<Post>, inp: Seq<Post>, perm: Seq<int>)
    requires
        sorted_by_perm(out, inp, perm, |p: Post| id_number(p)),
    ensures
        sorted_by_perm(posts_view(out), posts_view(inp), perm, |v: PostView| view_id_number(v)),
{
    reveal(id_number);
    let ov = posts_view(out);
    let iv = posts_view(inp);
    assert forall|i: int| 0 <= i < ov.len() implies ov[i] == iv[#[trigger] perm[i]] by {
        assert(out[i] == inp[perm[i]]);
    }
    assert forall|i: int, j: int| 0 <= i < j < ov.len() implies view_id_number(ov[i])
        >= view_id_number(ov[j]) && (view_id_number(ov[i]) == view_id_number(ov[j]) ==> perm[i]
        < perm[j]) by {
        assert(id_number(out[i]) >= id_number(out[j]));
    }
}

/// The posts of a list of (file name, Markdown text) sources: those with the
/// required front matter, ordered by numeric id, largest first, sources
/// with equal ids keeping their order.
pub fn read_posts(sources: Vec<(String, String)>) -> (r: Vec<Post>)
    ensures
        stable_sorted_desc(
            posts_view(r@),
            spec_posts(sources_view(sources@)),
            |v: PostView| view_id_number(v),
        ),
{
    let mut posts: Vec<Post> = Vec::new();
    let mut k: usize = 0;
    while k < sources.len()
        invariant
            k <= sources@.len(),
            posts_view(posts@) == spec_posts(sources_view(sources@).take(k as int)),
        decreases sources@.len() - k,
    {
        let ghost before = posts_view(posts@);
        let ghost sv = sources_view(sources@);
        proof {
            assert(sv.take(k + 1).drop_last() =~= sv.take(k as int));
            assert(sv.take(k + 1).last() == sv[k as int]);
        }
        match read_post(sources[k].0.as_str(), sources[k].1.as_str()) {
            Some(post) => {
                posts.push(post);
                assert(posts_view(posts@) =~= before.push(post_view(post)));
            },
            None => {},
        }
        k = k + 1;
    }
    proof {
        assert(sources_view(sources@).take(sources@.len() as int) =~= sources_view(sources@));
    }
    let ghost unsorted = posts@;
    let sorted = sorted_posts_desc(posts);
    proof {
        let key = |p: Post| id_number(p);
        let perm = choose|perm: Seq<int>| #[trigger] sorted_by_perm(sorted@, unsorted, perm, key);
        lemma_sorted_views(sorted@, unsorted, perm);
    }
    sorted
}

/// `Path::new("./").join(path)` on a Unix path: an absolute path stays as
/// it is; any other path is put under `./`.
pub open spec fn spec_output_path(path: Seq<char>) -> Seq<char> {
    if path.len() > 0 && path[0] == '/' {
        path
    } else {
        seq!['.', '/'] + path
    }
}

/// The path of `path` relative to the current directory.
pub fn output_path(path: &str) -> (r: String)
    ensures
        r@ == spec_output_path(path@),
{
    let p = path.as_bytes();
    let ghost pb = encode_utf8(path@);
    proof {
        lemma_encoded_valid(path@);
        encode_utf8_decode_utf8(path@);
        if path@.len() > 0 {
            lemma_first_byte_ascii(path@, SLASH);
        }
    }
    let mut out: Vec<u8> = Vec::new();
    if !(p.len() > 0 && p[0] == SLASH) {
        out.push(DOT);
        out.push(SLASH);
    }
    let ghost head = out@;
    push_range(&mut out, p, 0, p.len());
    proof {
        assert(p@.subrange(0, p@.len() as int) =~= pb);
        lemma_ascii_decode(head);
        if head.len() > 0 {
            assert(decode_utf8(head) =~= seq!['.', '/']);
        } else {
            assert(decode_utf8(head) =~= Seq::<char>::empty());
        }
        lemma_join_valid(head, pb);
        assert(out@ =~= head + pb);
        assert(out@.subrange(0, head.len() as int) =~= head);
        assert(out@.subrange(head.len() as int, out@.len() as int) =~= pb);
        if head.len() < out@.len() {
            assert(out@[head.len() as int] == pb[0]);
            assert(valid_first_scalar(pb)) by {
                reveal_with_fuel(valid_utf8, 1);
            }
        }
        lemma_boundary_join(head, pb);
        decode_utf8_split(out@, head.len() as int);
    }
    bytes_to_string(out)
}

/// Whether a file name ends in `.md`.
pub open spec fn spec_is_markdown_file(name: Seq<u8>) -> bool {
    let suffix = ".md".spec_bytes();
    suffix.len() <= name.len() && name.skip(name.len() - suffix.len()) == suffix
}

pub fn is_markdown_file(name: &str) -> (r: bool)
    ensures
        r == spec_is_markdown_file(name.spec_bytes()),
{
    let b = name.as_bytes();
    let suffix = ".md".as_bytes();
    if suffix.len() > b.len() {
        return false;
    }
    let start = b.len() - suffix.len();
    let r = crate::bytes::range_eq_bytes(b, start, b.len(), suffix);
    assert(b@.subrange(start as int, b@.len() as int) =~= b@.skip(start as int));
    r
}

/// The last `.` of a file name, if any.
pub open spec fn last_dot(name: Seq<u8>, k: int) -> Option<int>
    decreases k,
{
    if k <= 0 {
        None
    } else if name[k - 1] == DOT {
        Some(k - 1)
    } else {
        last_dot(name, k - 1)
    }
}

/// `Path::extension` of a file name: the text after its last `.`, unless
/// the name is `..`, has no `.`, or has its only `.` in front.
pub open spec fn spec_extension(name: Seq<u8>) -> Option<Seq<u8>> {
    if name == "..".spec_bytes() {
        None
    } else {
        match last_dot(name, name.len() as int) {
            None => None,
            Some(k) => if k == 0 {
                None
            } else {
                Some(name.skip(k + 1))
            },
        }
    }
}

/// Whether a file name has the extension `extension`.
pub fn has_extension(name: &str, extension: &str) -> (r: bool)
    ensures
        r == (spec_extension(name.spec_bytes()) == Some(extension.spec_bytes())),
{
    let b = name.as_bytes();
    if range_eq_str(b, 0, b.len(), "..") {
        assert(b@.subrange(0, b@.len() as int) =~= b@);
        return false;
    }
    assert(b@.subrange(0, b@.len() as int) =~= b@);
    let mut k = b.len();
    while k > 0 && b[k - 1] != DOT
        invariant
            k <= b@.len(),
            last_dot(b@, k as int) == last_dot(b@, b@.len() as int),
        decreases k,
    {
        k = k - 1;
    }
    if k <= 1 {
        return false;
    }
    let e = extension.as_bytes();
    let r = crate::bytes::range_eq_bytes(b, k, b.len(), e);
    assert(b@.subrange(k as int, b@.len() as int) =~= b@.skip(k as int));
    r
}

} // verus!
