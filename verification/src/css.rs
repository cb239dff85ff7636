//! Diagnostics and hovers for `css!` and `global_css!` invocations.

use vstd::prelude::*;
use vstd::string::StringSliceAdditionalSpecFns;
use vstd::utf8::{is_char_boundary, length_of_first_scalar, pop_first_scalar, valid_utf8, valid_utf8_split};

use crate::bytes::{
    trim, trim_bounds, trim_end, trim_end_bound, trim_start, trim_start_bound, AT_SIGN,
    spec_is_ascii_ws, AMPERSAND, BACKSLASH, CARRIAGE_RETURN, COLON, DOUBLE_QUOTE, LEFT_BRACE, LINE_FEED,
    RIGHT_BRACE, SEMICOLON, SINGLE_QUOTE, TAB,
};
use crate::line_index::MAX_TEXT_LEN;
use crate::bytes::{fnv1a_hash, hex6, push_hex6, push_range, push_str, range_eq_bytes, spec_fnv1a};
use crate::report::{
    lemma_notes_text_join, msg, note, notes_text, notes_view, push_note, Note, SpecNote,
};
use crate::line_index::on_char_boundary;
use crate::text::{
    lemma_after_ascii, lemma_ascii_valid, lemma_cut_valid, lemma_encoded_valid, lemma_join_valid,
    lemma_prefix_boundary, lemma_trim_end_prefix, lemma_trim_start_suffix, lemma_trim_valid,
    lemma_wrap2_valid, lemma_wrap_valid,
};
use crate::scan::{
    find_byte, lemma_find_byte_bounds, opt_int, lemma_scan_string_from_bounds,
    lemma_scan_string_closes, lemma_scan_string_from_quote, scan_string,
    spec_find_byte, spec_scan_string, ByteRange, MacroInvocation, MacroKind,
};

verus! {

pub const UNCLOSED_CSS: &'static str = "unclosed CSS macro delimiter";
pub const UNCLOSED_CSS_STRING: &'static str = "unclosed string literal in CSS macro";
pub const NESTED_SELECTOR: &'static str = "nested selector blocks in css! must start with `&`";
pub const UNBALANCED_CLOSING_BRACE: &'static str = "unbalanced CSS closing brace";
pub const UNBALANCED_OPENING_BRACE: &'static str = "unbalanced CSS opening brace";
pub const UNTERMINATED_DECLARATION: &'static str = "unterminated CSS declaration; expected `;` before the next rule or macro end";

/// The simple escapes of a Rust string literal's contents resolved: `\n`,
/// `\t`, `\r`, `\"` and `\\`; any other backslash is kept as it is.
pub open spec fn spec_unescape(v: Seq<u8>) -> Seq<u8>
    decreases v.len(),
{
    if v.len() == 0 {
        seq![]
    } else if v[0] == BACKSLASH {
        if v.len() == 1 {
            seq![BACKSLASH]
        } else {
            let c = v[1];
            let out = if c == 0x6e {
                seq![LINE_FEED]
            } else if c == 0x74 {
                seq![TAB]
            } else if c == 0x72 {
                seq![CARRIAGE_RETURN]
            } else if c == DOUBLE_QUOTE {
                seq![DOUBLE_QUOTE]
            } else if c == BACKSLASH {
                seq![BACKSLASH]
            } else {
                seq![BACKSLASH, c]
            };
            out + spec_unescape(v.skip(2))
        }
    } else {
        seq![v[0]] + spec_unescape(v.skip(1))
    }
}

pub proof fn lemma_unescape_len(v: Seq<u8>)
    ensures
        spec_unescape(v).len() <= v.len(),
    decreases v.len(),
{
    if v.len() >= 2 && v[0] == BACKSLASH {
        lemma_unescape_len(v.skip(2));
    } else if v.len() >= 1 {
        lemma_unescape_len(v.skip(1));
    }
}

/// Resolves the simple escapes of `b[start..end]`.
pub fn unescape_simple_string(b: &[u8], start: usize, end: usize) -> (r: Vec<u8>)
    requires
        start <= end <= b@.len(),
    ensures
        r@ == spec_unescape(b@.subrange(start as int, end as int)),
{
    let mut out: Vec<u8> = Vec::new();
    let mut p = start;
    while p < end
        invariant
            start <= p <= end <= b@.len(),
            out@ + spec_unescape(b@.subrange(p as int, end as int)) == spec_unescape(
                b@.subrange(start as int, end as int),
            ),
        decreases end - p,
    {
        let ghost rest = b@.subrange(p as int, end as int);
        let ghost old_out = out@;
        if b[p] == BACKSLASH {
            if end - p == 1 {
                out.push(BACKSLASH);
                assert(b@.subrange(end as int, end as int) =~= Seq::<u8>::empty());
                assert(out@ + spec_unescape(b@.subrange(end as int, end as int)) =~= old_out
                    + spec_unescape(rest));
                p = end;
            } else {
                let c = b[p + 1];
                if c == 0x6e {
                    out.push(LINE_FEED);
                } else if c == 0x74 {
                    out.push(TAB);
                } else if c == 0x72 {
                    out.push(CARRIAGE_RETURN);
                } else if c == DOUBLE_QUOTE {
                    out.push(DOUBLE_QUOTE);
                } else if c == BACKSLASH {
                    out.push(BACKSLASH);
                } else {
                    out.push(BACKSLASH);
                    out.push(c);
                }
                assert(rest.skip(2) =~= b@.subrange(p + 2, end as int));
                assert(out@ + spec_unescape(b@.subrange(p + 2, end as int)) =~= old_out
                    + spec_unescape(rest));
                p = p + 2;
            }
        } else {
            out.push(b[p]);
            assert(rest.skip(1) =~= b@.subrange(p + 1, end as int));
            assert(out@ + spec_unescape(b@.subrange(p + 1, end as int)) =~= old_out
                + spec_unescape(rest));
            p = p + 1;
        }
    }
    assert(b@.subrange(end as int, end as int) =~= Seq::<u8>::empty());
    assert(out@ + spec_unescape(b@.subrange(p as int, end as int)) =~= out@);
    out
}

/// The CSS text of a `css!`/`global_css!` body and the offset in the source
/// at which it starts, or, for an unclosed string literal, `None` with the
/// diagnostic it yields.
pub open spec fn spec_extract_css(b: Seq<u8>, inv: MacroInvocation) -> (
    Option<(Seq<u8>, int)>,
    Seq<SpecNote>,
) {
    let bs = inv.body.start as int;
    let be = inv.body.end as int;
    let body = b.subrange(bs, be);
    let start = bs + (body.len() - trim_start(body).len());
    let end = bs + trim_end(body).len();
    if start >= end {
        (Some((seq![], start)), seq![])
    } else if b[start] == DOUBLE_QUOTE || b[start] == SINGLE_QUOTE {
        match spec_scan_string(b, start) {
            Some(se) => {
                if se > end {
                    (None, seq![note(start, end, UNCLOSED_CSS_STRING.spec_bytes())])
                } else {
                    (Some((spec_unescape(b.subrange(start + 1, se - 1)), start + 1)), seq![])
                }
            },
            None => (None, seq![note(start, end, UNCLOSED_CSS_STRING.spec_bytes())]),
        }
    } else {
        (Some((trim(body), start)), seq![])
    }
}

/// Extracts the CSS text of an invocation, appending a diagnostic for an
/// unclosed string literal.
pub fn extract_css_text(b: &[u8], invocation: &MacroInvocation, diags: &mut Vec<Note>) -> (r:
    Option<(Vec<u8>, usize)>)
    requires
        invocation.body.start <= invocation.body.end <= b@.len(),
    ensures
        notes_view(final(diags)@) == notes_view(old(diags)@) + spec_extract_css(
            b@,
            *invocation,
        ).1,
        match r {
            Some((text, off)) => spec_extract_css(b@, *invocation).0 == Some(
                (text@, off as int),
            ),
            None => spec_extract_css(b@, *invocation).0 is None,
        },
        r matches Some((text, off)) ==> off + text@.len() <= b@.len(),
{
    let bs = invocation.body.start;
    let be = invocation.body.end;
    let start = trim_start_bound(b, bs, be);
    let end = trim_end_bound(b, bs, be);
    let ghost body = b@.subrange(bs as int, be as int);
    proof {
        assert(trim_start(body).len() == be - start);
        assert(trim_end(body).len() == end - bs);
        assert(notes_view(diags@) + seq![] =~= notes_view(diags@));
    }
    if start >= end {
        return Some((Vec::new(), start));
    }
    if b[start] == DOUBLE_QUOTE || b[start] == SINGLE_QUOTE {
        proof {
            lemma_scan_string_from_bounds(b@, b@[start as int], start + 1);
        }
        match scan_string(b, start) {
            Some(string_end) => {
                if string_end > end {
                    push_note(diags, ByteRange::new(start, end), msg(UNCLOSED_CSS_STRING));
                    return None;
                }
                let value = unescape_simple_string(b, start + 1, string_end - 1);
                proof {
                    lemma_unescape_len(b@.subrange(start + 1, string_end - 1));
                }
                Some((value, start + 1))
            },
            None => {
                push_note(diags, ByteRange::new(start, end), msg(UNCLOSED_CSS_STRING));
                None
            },
        }
    } else {
        let (s, e) = trim_bounds(b, bs, be);
        let text = vstd::slice::slice_to_vec(vstd::slice::slice_subrange(b, s, e));
        Some((text, start))
    }
}


/// The last index before `idx` holding `}` or `;`.
pub open spec fn spec_rfind_rule_end(css: Seq<u8>, idx: int) -> Option<int>
    decreases idx,
{
    if idx <= 0 {
        None
    } else if css[idx - 1] == RIGHT_BRACE || css[idx - 1] == SEMICOLON {
        Some(idx - 1)
    } else {
        spec_rfind_rule_end(css, idx - 1)
    }
}

/// Whether a block selector of a `css!` body breaks the rule that nested
/// blocks start with `&` (at-rules and pseudo selectors pass too).
pub open spec fn bad_nested_selector(sel: Seq<u8>) -> bool {
    sel.len() > 0 && sel[0] != AT_SIGN && sel[0] != AMPERSAND && !sel.contains(COLON)
}

/// Where the selector before the `{` at `idx` starts.
pub open spec fn spec_selector_start(css: Seq<u8>, idx: int) -> int {
    match spec_rfind_rule_end(css, idx) {
        Some(p) => p + 1,
        None => 0,
    }
}

/// The brace check of a CSS text from `idx` on: the open braces still
/// pending and the diagnostics so far (offsets are shifted by `off`).
pub open spec fn spec_brace_pass(
    css: Seq<u8>,
    off: int,
    kind: MacroKind,
    idx: int,
    stack: Seq<int>,
    diags: Seq<SpecNote>,
) -> (Seq<int>, Seq<SpecNote>)
    decreases css.len() - idx,
{
    if idx < 0 || idx >= css.len() {
        (stack, diags)
    } else if css[idx] == LEFT_BRACE {
        let ss = spec_selector_start(css, idx);
        let d = if kind == MacroKind::Css && bad_nested_selector(trim(css.subrange(ss, idx))) {
            diags.push(note(off + ss, off + idx, NESTED_SELECTOR.spec_bytes()))
        } else {
            diags
        };
        spec_brace_pass(css, off, kind, idx + 1, stack.push(idx), d)
    } else if css[idx] == RIGHT_BRACE {
        if stack.len() == 0 {
            spec_brace_pass(
                css,
                off,
                kind,
                idx + 1,
                stack,
                diags.push(note(off + idx, off + idx + 1, UNBALANCED_CLOSING_BRACE.spec_bytes())),
            )
        } else {
            spec_brace_pass(css, off, kind, idx + 1, stack.drop_last(), diags)
        }
    } else {
        spec_brace_pass(css, off, kind, idx + 1, stack, diags)
    }
}

/// One diagnostic for each brace left open.
pub open spec fn spec_unclosed_braces(stack: Seq<int>, off: int) -> Seq<SpecNote> {
    stack.map_values(|idx: int| note(off + idx, off + idx + 1, UNBALANCED_OPENING_BRACE.spec_bytes()))
}

/// What one declaration segment `css[s..e]` reports: a trimmed segment
/// with a `:` that is not an at-rule, a `&` rule or a block must end in `;`.
pub open spec fn spec_check_segment(css: Seq<u8>, s: int, e: int, off: int) -> Seq<SpecNote> {
    let seg = trim(css.subrange(s, e));
    if seg.len() == 0 || seg[0] == AT_SIGN || seg[0] == AMPERSAND || seg.contains(LEFT_BRACE) {
        seq![]
    } else if seg.contains(COLON) && seg.last() != SEMICOLON {
        seq![note(off + s, off + e, UNTERMINATED_DECLARATION.spec_bytes())]
    } else {
        seq![]
    }
}

/// The declaration check from `idx` on: segments end at braces, and at `;`
/// outside nested blocks.
pub open spec fn spec_segment_pass(
    css: Seq<u8>,
    off: int,
    idx: int,
    seg_start: int,
    depth: int,
    diags: Seq<SpecNote>,
) -> Seq<SpecNote>
    decreases css.len() - idx,
{
    if idx < 0 || idx >= css.len() {
        diags + spec_check_segment(css, seg_start, css.len() as int, off)
    } else if css[idx] == LEFT_BRACE {
        spec_segment_pass(
            css,
            off,
            idx + 1,
            idx + 1,
            depth + 1,
            diags + spec_check_segment(css, seg_start, idx, off),
        )
    } else if css[idx] == RIGHT_BRACE {
        spec_segment_pass(
            css,
            off,
            idx + 1,
            idx + 1,
            if depth > 0 {
                depth - 1
            } else {
                0
            },
            diags + spec_check_segment(css, seg_start, idx, off),
        )
    } else if css[idx] == SEMICOLON && depth <= 1 {
        spec_segment_pass(css, off, idx + 1, idx + 1, depth, diags)
    } else {
        spec_segment_pass(css, off, idx + 1, seg_start, depth, diags)
    }
}

/// The diagnostics of a CSS text whose first byte is at source offset `off`.
pub open spec fn spec_css_text_diags(css: Seq<u8>, off: int, kind: MacroKind) -> Seq<SpecNote> {
    let (stack, d) = spec_brace_pass(css, off, kind, 0, seq![], seq![]);
    spec_segment_pass(css, off, 0, 0, 0, d + spec_unclosed_braces(stack, off))
}

fn rfind_rule_end(css: &[u8], idx: usize) -> (r: Option<usize>)
    requires
        idx <= css@.len(),
    ensures
        opt_int(r) == spec_rfind_rule_end(css@, idx as int),
        r matches Some(p) ==> p < idx,
{
    let mut k = idx;
    while k > 0
        invariant
            k <= idx <= css@.len(),
            spec_rfind_rule_end(css@, k as int) == spec_rfind_rule_end(css@, idx as int),
        decreases k,
    {
        if css[k - 1] == RIGHT_BRACE || css[k - 1] == SEMICOLON {
            return Some(k - 1);
        }
        k = k - 1;
    }
    None
}

/// Whether `b[start..end]` holds `c`.
fn range_contains(b: &[u8], start: usize, end: usize, c: u8) -> (r: bool)
    requires
        start <= end <= b@.len(),
    ensures
        r == b@.subrange(start as int, end as int).contains(c),
{
    let mut k = start;
    while k < end
        invariant
            start <= k <= end <= b@.len(),
            forall|m: int| start <= m < k ==> b@[m] != c,
        decreases end - k,
    {
        if b[k] == c {
            assert(b@.subrange(start as int, end as int)[k - start] == c);
            return true;
        }
        k = k + 1;
    }
    assert forall|m: int| 0 <= m < end - start implies b@.subrange(
        start as int,
        end as int,
    )[m] != c by {
        assert(b@.subrange(start as int, end as int)[m] == b@[start + m]);
    }
    false
}

fn is_bad_selector(css: &[u8], s: usize, e: usize) -> (r: bool)
    requires
        s <= e <= css@.len(),
    ensures
        r == bad_nested_selector(trim(css@.subrange(s as int, e as int))),
{
    let (a, z) = trim_bounds(css, s, e);
    if a == z {
        return false;
    }
    let first = css[a];
    proof {
        assert(css@.subrange(a as int, z as int)[0] == css@[a as int]);
    }
    first != AT_SIGN && first != AMPERSAND && !range_contains(css, a, z, COLON)
}

fn check_declaration_segment(
    css: &[u8],
    start: usize,
    end: usize,
    off: usize,
    diags: &mut Vec<Note>,
)
    requires
        start <= end <= css@.len(),
        off + css@.len() <= MAX_TEXT_LEN,
    ensures
        notes_view(final(diags)@) == notes_view(old(diags)@) + spec_check_segment(
            css@,
            start as int,
            end as int,
            off as int,
        ),
{
    let (a, z) = trim_bounds(css, start, end);
    let ghost seg = css@.subrange(a as int, z as int);
    proof {
        assert(notes_view(diags@) + seq![] =~= notes_view(diags@));
    }
    if a == z {
        return ;
    }
    let first = css[a];
    let last = css[z - 1];
    proof {
        assert(seg[0] == css@[a as int]);
        assert(seg.last() == css@[z - 1]);
    }
    if first == AT_SIGN || first == AMPERSAND || range_contains(css, a, z, LEFT_BRACE) {
        return ;
    }
    if range_contains(css, a, z, COLON) && last != SEMICOLON {
        let ghost before = notes_view(diags@);
        push_note(diags, ByteRange::new(off + start, off + end), msg(UNTERMINATED_DECLARATION));
        assert(notes_view(diags@) =~= before + spec_check_segment(
            css@,
            start as int,
            end as int,
            off as int,
        ));
    }
}

/// Appends the diagnostics of a CSS text whose first byte is at source
/// offset `off`: unbalanced braces, nested `css!` selectors that do not
/// start with `&`, and declarations not terminated by `;`.
pub fn diagnose_css_text(css: &[u8], off: usize, kind: MacroKind, diags: &mut Vec<Note>)
    requires
        off + css@.len() <= MAX_TEXT_LEN,
    ensures
        notes_view(final(diags)@) == notes_view(old(diags)@) + spec_css_text_diags(
            css@,
            off as int,
            kind,
        ),
{
    let mut local: Vec<Note> = Vec::new();
    let mut stack: Vec<usize> = Vec::new();
    let mut idx: usize = 0;
    let ghost target = spec_brace_pass(css@, off as int, kind, 0, seq![], seq![]);
    proof {
        assert(notes_view(local@) =~= seq![]);
        assert(stack@.map_values(|x: usize| x as int) =~= seq![]);
    }
    while idx < css.len()
        invariant
            idx <= css@.len(),
            off + css@.len() <= MAX_TEXT_LEN,
            forall|k: int| 0 <= k < stack@.len() ==> stack@[k] < idx,
            spec_brace_pass(
                css@,
                off as int,
                kind,
                idx as int,
                stack@.map_values(|x: usize| x as int),
                notes_view(local@),
            ) == target,
        decreases css@.len() - idx,
    {
        let ghost sv = stack@.map_values(|x: usize| x as int);
        let c = css[idx];
        if c == LEFT_BRACE {
            if kind == MacroKind::Css {
                let ss = match rfind_rule_end(css, idx) {
                    Some(p) => p + 1,
                    None => 0,
                };
                if is_bad_selector(css, ss, idx) {
                    push_note(&mut local, ByteRange::new(off + ss, off + idx), msg(NESTED_SELECTOR));
                }
            }
            stack.push(idx);
            assert(stack@.map_values(|x: usize| x as int) =~= sv.push(idx as int));
        } else if c == RIGHT_BRACE {
            if stack.len() == 0 {
                push_note(
                    &mut local,
                    ByteRange::new(off + idx, off + idx + 1),
                    msg(UNBALANCED_CLOSING_BRACE),
                );
            } else {
                let _ = stack.pop();
                assert(stack@.map_values(|x: usize| x as int) =~= sv.drop_last());
            }
        }
        idx = idx + 1;
    }
    let ghost final_stack = stack@.map_values(|x: usize| x as int);
    let ghost base = notes_view(local@);
    let mut k: usize = 0;
    while k < stack.len()
        invariant
            k <= stack@.len(),
            off + css@.len() <= MAX_TEXT_LEN,
            forall|m: int| 0 <= m < stack@.len() ==> stack@[m] < css@.len(),
            final_stack == stack@.map_values(|x: usize| x as int),
            notes_view(local@) == base + spec_unclosed_braces(final_stack, off as int).take(
                k as int,
            ),
        decreases stack@.len() - k,
    {
        let p = stack[k];
        push_note(&mut local, ByteRange::new(off + p, off + p + 1), msg(UNBALANCED_OPENING_BRACE));
        assert(spec_unclosed_braces(final_stack, off as int).take(k + 1) =~= spec_unclosed_braces(
            final_stack,
            off as int,
        ).take(k as int).push(spec_unclosed_braces(final_stack, off as int)[k as int]));
        k = k + 1;
    }
    assert(spec_unclosed_braces(final_stack, off as int).take(stack@.len() as int)
        =~= spec_unclosed_braces(final_stack, off as int));
    let ghost target2 = spec_segment_pass(css@, off as int, 0, 0, 0, notes_view(local@));
    let mut segment_start: usize = 0;
    let mut depth: usize = 0;
    let mut idx: usize = 0;
    while idx < css.len()
        invariant
            idx <= css@.len(),
            segment_start <= idx,
            depth <= idx,
            off + css@.len() <= MAX_TEXT_LEN,
            spec_segment_pass(
                css@,
                off as int,
                idx as int,
                segment_start as int,
                depth as int,
                notes_view(local@),
            ) == target2,
        decreases css@.len() - idx,
    {
        let c = css[idx];
        if c == LEFT_BRACE {
            check_declaration_segment(css, segment_start, idx, off, &mut local);
            depth = depth + 1;
            segment_start = idx + 1;
        } else if c == RIGHT_BRACE {
            check_declaration_segment(css, segment_start, idx, off, &mut local);
            depth = if depth > 0 {
                depth - 1
            } else {
                0
            };
            segment_start = idx + 1;
        } else if c == SEMICOLON && depth <= 1 {
            segment_start = idx + 1;
        }
        idx = idx + 1;
    }
    check_declaration_segment(css, segment_start, css.len(), off, &mut local);
    proof {
        assert(notes_view(diags@ + local@) =~= notes_view(diags@) + notes_view(local@));
    }
    diags.append(&mut local);
}


pub const DOT: &'static str = ".";
pub const EMPTY_BLOCK: &'static str = " { }";
pub const BLOCK_OPEN: &'static str = " { ";
pub const BLOCK_CLOSE: &'static str = " }";
pub const MEDIA: &'static str = "@media";
pub const MEDIA_PREFIX: &'static str = "@media ";
pub const MEDIA_CLASS_OPEN: &'static str = " { .";
pub const MEDIA_BLOCK_CLOSE: &'static str = " } }";
pub const TOP_BLOCK_CLOSE: &'static str = "; }";
pub const NEWLINE: &'static str = "\n";

pub open spec fn parts_view(v: Seq<Vec<u8>>) -> Seq<Seq<u8>> {
    v.map_values(|p: Vec<u8>| p@)
}

pub open spec fn starts_with(s: Seq<u8>, p: Seq<u8>) -> bool {
    p.len() <= s.len() && s.take(p.len() as int) == p
}

/// `str::trim_start_matches` with a string pattern.
pub open spec fn trim_start_matches(s: Seq<u8>, p: Seq<u8>) -> Seq<u8>
    decreases s.len(),
{
    if p.len() > 0 && starts_with(s, p) {
        trim_start_matches(s.skip(p.len() as int), p)
    } else {
        s
    }
}

/// `str::trim_end_matches` with a single-byte pattern.
pub open spec fn trim_end_byte(s: Seq<u8>, c: u8) -> Seq<u8>
    decreases s.len(),
{
    if s.len() > 0 && s.last() == c {
        trim_end_byte(s.drop_last(), c)
    } else {
        s
    }
}

/// Every `&` of `s` replaced by `rep`.
pub open spec fn replace_ampersand(s: Seq<u8>, rep: Seq<u8>) -> Seq<u8>
    decreases s.len(),
{
    if s.len() == 0 {
        seq![]
    } else {
        replace_ampersand(s.drop_last(), rep) + if s.last() == AMPERSAND {
            rep
        } else {
            seq![s.last()]
        }
    }
}

/// The parts joined by `sep`.
pub open spec fn join(parts: Seq<Seq<u8>>, sep: Seq<u8>) -> Seq<u8>
    decreases parts.len(),
{
    if parts.len() == 0 {
        seq![]
    } else if parts.len() == 1 {
        parts[0]
    } else {
        join(parts.drop_last(), sep) + sep + parts.last()
    }
}

/// The text before the first `&` or `@` of `s` (all of it when there is none).
pub open spec fn before_nested(s: Seq<u8>, k: int) -> Seq<u8>
    decreases s.len() - k,
{
    if k < 0 || k >= s.len() {
        s
    } else if s[k] == AMPERSAND || s[k] == AT_SIGN {
        s.take(k)
    } else {
        before_nested(s, k + 1)
    }
}

/// The preview rules for the blocks of `t` from offset `rs` on: a block
/// whose selector starts with `&` becomes that selector with `&` replaced by
/// the class selector; an `@media` block wraps the class's rule; other
/// blocks give nothing.
pub open spec fn spec_preview_parts(class: Seq<u8>, t: Seq<u8>, rs: int) -> Seq<Seq<u8>>
    decreases t.len() - rs,
{
    match spec_find_byte(t, rs, LEFT_BRACE) {
        None => seq![],
        Some(open) => {
            proof {
                lemma_find_byte_bounds(t, rs, LEFT_BRACE);
            }
            let selector = trim(t.subrange(rs, open));
            let close = match spec_find_byte(t, open + 1, RIGHT_BRACE) {
                Some(c) => c,
                None => t.len() as int,
            };
            proof {
                lemma_find_byte_bounds(t, open + 1, RIGHT_BRACE);
            }
            let props = trim(t.subrange(open + 1, close));
            let next = if close < t.len() {
                close + 1
            } else {
                t.len() as int
            };
            let here = if selector.len() > 0 && selector[0] == AMPERSAND {
                seq![
                    replace_ampersand(selector, DOT.spec_bytes() + class) + BLOCK_OPEN.spec_bytes()
                        + props + BLOCK_CLOSE.spec_bytes(),
                ]
            } else if starts_with(selector, MEDIA.spec_bytes()) {
                seq![
                    MEDIA_PREFIX.spec_bytes() + trim(trim_start_matches(selector, MEDIA.spec_bytes()))
                        + MEDIA_CLASS_OPEN.spec_bytes() + class + BLOCK_OPEN.spec_bytes() + props
                        + MEDIA_BLOCK_CLOSE.spec_bytes(),
                ]
            } else {
                seq![]
            };
            here + spec_preview_parts(class, t, next)
        },
    }
}

/// The compiled-selector preview of a `css!` body for class `class`: the
/// top-level declarations as a rule for the class, then the preview rules of
/// its blocks, one per line.
pub open spec fn spec_css_preview(class: Seq<u8>, css: Seq<u8>) -> Seq<u8> {
    let t = trim(css);
    if t.len() == 0 {
        DOT.spec_bytes() + class + EMPTY_BLOCK.spec_bytes()
    } else {
        let parts = spec_preview_parts(class, t, 0);
        let top = trim_end_byte(trim(before_nested(t, 0)), SEMICOLON);
        let all = if top.len() > 0 && top.contains(COLON) {
            seq![
                DOT.spec_bytes() + class + BLOCK_OPEN.spec_bytes() + top
                    + TOP_BLOCK_CLOSE.spec_bytes(),
            ] + parts
        } else {
            parts
        };
        if all.len() == 0 {
            DOT.spec_bytes() + class + BLOCK_OPEN.spec_bytes() + t + BLOCK_CLOSE.spec_bytes()
        } else {
            join(all, NEWLINE.spec_bytes())
        }
    }
}

fn push_replace_ampersand(out: &mut Vec<u8>, t: &[u8], s: usize, e: usize, rep: &[u8])
    requires
        s <= e <= t@.len(),
    ensures
        final(out)@ == old(out)@ + replace_ampersand(t@.subrange(s as int, e as int), rep@),
{
    let mut k = s;
    assert(t@.subrange(s as int, s as int) =~= Seq::<u8>::empty());
    assert(old(out)@ + replace_ampersand(Seq::<u8>::empty(), rep@) =~= old(out)@);
    while k < e
        invariant
            s <= k <= e <= t@.len(),
            out@ == old(out)@ + replace_ampersand(t@.subrange(s as int, k as int), rep@),
        decreases e - k,
    {
        let ghost before = out@;
        assert(t@.subrange(s as int, k + 1).drop_last() =~= t@.subrange(s as int, k as int));
        if t[k] == AMPERSAND {
            push_range(out, rep, 0, rep.len());
            assert(rep@.subrange(0, rep@.len() as int) =~= rep@);
        } else {
            out.push(t[k]);
        }
        assert(out@ =~= old(out)@ + replace_ampersand(t@.subrange(s as int, k + 1), rep@));
        k = k + 1;
    }
}

/// Start of `trim_start_matches(t[s..e], p)` inside `t`.
fn trim_start_matches_bound(t: &[u8], s: usize, e: usize, p: &[u8]) -> (r: usize)
    requires
        s <= e <= t@.len(),
    ensures
        s <= r <= e,
        t@.subrange(r as int, e as int) == trim_start_matches(t@.subrange(s as int, e as int), p@),
{
    let mut k = s;
    while p.len() > 0 && e - k >= p.len() && range_eq_bytes(t, k, k + p.len(), p)
        invariant
            s <= k <= e <= t@.len(),
            trim_start_matches(t@.subrange(k as int, e as int), p@) == trim_start_matches(
                t@.subrange(s as int, e as int),
                p@,
            ),
        decreases e - k,
    {
        assert(t@.subrange(k as int, e as int).take(p@.len() as int) =~= t@.subrange(
            k as int,
            k + p@.len(),
        ));
        assert(t@.subrange(k as int, e as int).skip(p@.len() as int) =~= t@.subrange(
            k + p@.len(),
            e as int,
        ));
        k = k + p.len();
    }
    proof {
        if p@.len() > 0 && e - k >= p@.len() {
            assert(t@.subrange(k as int, e as int).take(p@.len() as int) =~= t@.subrange(
                k as int,
                k + p@.len(),
            ));
        }
    }
    k
}

/// Appends the preview rules of the blocks of `t` from `rs` on.
fn push_preview_parts(parts: &mut Vec<Vec<u8>>, class: &[u8], dot_class: &[u8], t: &[u8], rs: usize)
    requires
        rs <= t@.len(),
        dot_class@ == DOT.spec_bytes() + class@,
    ensures
        parts_view(final(parts)@) == parts_view(old(parts)@)
            + spec_preview_parts(class@, t@, rs as int),
{
    let mut rest = rs;
    let ghost target = spec_preview_parts(class@, t@, rs as int);
    let ghost base = parts_view(old(parts)@);
    proof {
        assert(base + target =~= base + spec_preview_parts(class@, t@, rest as int));
    }
    let tlen = t.len();
    loop
        invariant
            rest <= t@.len(),
            tlen == t@.len(),
            base == parts_view(old(parts)@),
            target == spec_preview_parts(class@, t@, rs as int),
            dot_class@ == DOT.spec_bytes() + class@,
            parts_view(parts@) + spec_preview_parts(class@, t@, rest as int)
                == base + target,
        decreases t@.len() - rest,
    {
        let open = match find_byte(t, rest, LEFT_BRACE) {
            Some(open) => open,
            None => {
                assert(parts_view(parts@) =~= base + target);
                return ;
            },
        };
        proof {
            lemma_find_byte_bounds(t@, rest as int, LEFT_BRACE);
            lemma_find_byte_bounds(t@, open + 1, RIGHT_BRACE);
        }
        let close = match find_byte(t, open + 1, RIGHT_BRACE) {
            Some(c) => c,
            None => t.len(),
        };
        let (sa, sz) = trim_bounds(t, rest, open);
        let (pa, pz) = trim_bounds(t, open + 1, close);
        let ghost selector = t@.subrange(sa as int, sz as int);
        let next = if close < t.len() {
            close + 1
        } else {
            t.len()
        };
        let ghost view_before = parts_view(parts@);
        let media = MEDIA.as_bytes();
        if sz > sa && t[sa] == AMPERSAND {
            let mut part: Vec<u8> = Vec::new();
            push_replace_ampersand(&mut part, t, sa, sz, dot_class);
            push_str(&mut part, BLOCK_OPEN);
            push_range(&mut part, t, pa, pz);
            push_str(&mut part, BLOCK_CLOSE);
            proof {
                assert(selector[0] == t@[sa as int]);
            }
            parts.push(part);
        } else if sz - sa >= media.len() && range_eq_bytes(t, sa, sa + media.len(), media) {
            proof {
                assert(selector.take(media@.len() as int) =~= t@.subrange(
                    sa as int,
                    sa + media@.len(),
                ));
            }
            let qa = trim_start_matches_bound(t, sa, sz, media);
            let (qb, qz) = trim_bounds(t, qa, sz);
            let mut part: Vec<u8> = Vec::new();
            push_str(&mut part, MEDIA_PREFIX);
            push_range(&mut part, t, qb, qz);
            push_str(&mut part, MEDIA_CLASS_OPEN);
            push_range(&mut part, class, 0, class.len());
            push_str(&mut part, BLOCK_OPEN);
            push_range(&mut part, t, pa, pz);
            push_str(&mut part, MEDIA_BLOCK_CLOSE);
            proof {
                assert(class@.subrange(0, class@.len() as int) =~= class@);
                if selector.len() > 0 {
                    assert(selector[0] == t@[sa as int]);
                }
            }
            parts.push(part);
        } else {
            proof {
                if selector.len() > 0 {
                    assert(selector[0] == t@[sa as int]);
                }
                if media@.len() <= selector.len() {
                    assert(selector.take(media@.len() as int) =~= t@.subrange(
                        sa as int,
                        sa + media@.len(),
                    ));
                }
            }
        }
        proof {
            assert(parts_view(parts@) + spec_preview_parts(class@, t@, next as int)
                =~= base + target);
        }
        rest = next;
    }
}


fn before_nested_end(t: &[u8]) -> (k: usize)
    ensures
        k <= t@.len(),
        t@.take(k as int) == before_nested(t@, 0),
{
    let mut k: usize = 0;
    while k < t.len() && t[k] != AMPERSAND && t[k] != AT_SIGN
        invariant
            k <= t@.len(),
            before_nested(t@, k as int) == before_nested(t@, 0),
        decreases t@.len() - k,
    {
        k = k + 1;
    }
    if k == t.len() {
        assert(t@.take(k as int) =~= t@);
    }
    k
}

fn trim_end_byte_bound(t: &[u8], s: usize, e: usize, c: u8) -> (r: usize)
    requires
        s <= e <= t@.len(),
    ensures
        s <= r <= e,
        t@.subrange(s as int, r as int) == trim_end_byte(t@.subrange(s as int, e as int), c),
{
    let mut z = e;
    while z > s && t[z - 1] == c
        invariant
            s <= z <= e <= t@.len(),
            trim_end_byte(t@.subrange(s as int, z as int), c) == trim_end_byte(
                t@.subrange(s as int, e as int),
                c,
            ),
        decreases z - s,
    {
        assert(t@.subrange(s as int, z as int).drop_last() =~= t@.subrange(s as int, z - 1));
        z = z - 1;
    }
    z
}

fn join_parts(parts: &Vec<Vec<u8>>, sep: &str) -> (r: Vec<u8>)
    requires
        parts@.len() > 0,
    ensures
        r@ == join(parts_view(parts@), sep.spec_bytes()),
{
    let ghost pv = parts_view(parts@);
    let mut out: Vec<u8> = Vec::new();
    push_range(&mut out, parts[0].as_slice(), 0, parts[0].len());
    proof {
        assert(parts@[0]@.subrange(0, parts@[0]@.len() as int) =~= parts@[0]@);
        assert(pv.take(1).len() == 1);
        assert(pv.take(1)[0] == pv[0]);
        assert(out@ =~= join(pv.take(1), sep.spec_bytes()));
    }
    let mut k: usize = 1;
    while k < parts.len()
        invariant
            1 <= k <= parts@.len(),
            pv == parts_view(parts@),
            out@ == join(pv.take(k as int), sep.spec_bytes()),
        decreases parts@.len() - k,
    {
        push_str(&mut out, sep);
        push_range(&mut out, parts[k].as_slice(), 0, parts[k].len());
        proof {
            assert(parts@[k as int]@.subrange(0, parts@[k as int]@.len() as int)
                =~= parts@[k as int]@);
            assert(pv.take(k + 1).drop_last() =~= pv.take(k as int));
            assert(pv.take(k + 1).last() == pv[k as int]);
        }
        k = k + 1;
    }
    assert(pv.take(parts@.len() as int) =~= pv);
    out
}

/// The compiled-selector preview that a `css!` hover shows for class
/// `class`.
pub fn generate_css_preview(class: &[u8], css: &[u8]) -> (r: Vec<u8>)
    ensures
        r@ == spec_css_preview(class@, css@),
{
    let (a, z) = trim_bounds(css, 0, css.len());
    proof {
        assert(css@.subrange(0, css@.len() as int) =~= css@);
    }
    let t = vstd::slice::slice_to_vec(vstd::slice::slice_subrange(css, a, z));
    let mut dot_class = msg(DOT);
    push_range(&mut dot_class, class, 0, class.len());
    proof {
        assert(class@.subrange(0, class@.len() as int) =~= class@);
    }
    if t.len() == 0 {
        push_str(&mut dot_class, EMPTY_BLOCK);
        return dot_class;
    }
    let ts = t.as_slice();
    let mut parts: Vec<Vec<u8>> = Vec::new();
    push_preview_parts(&mut parts, class, dot_class.as_slice(), ts, 0);
    proof {
        assert(parts_view(Seq::<Vec<u8>>::empty()) =~= Seq::<Seq<u8>>::empty());
    }
    let k = before_nested_end(ts);
    let (ta, tz) = trim_bounds(ts, 0, k);
    proof {
        assert(ts@.take(k as int) =~= ts@.subrange(0, k as int));
    }
    let tz2 = trim_end_byte_bound(ts, ta, tz, SEMICOLON);
    if tz2 > ta && range_contains(ts, ta, tz2, COLON) {
        let mut top: Vec<u8> = Vec::new();
        push_range(&mut top, dot_class.as_slice(), 0, dot_class.len());
        push_str(&mut top, BLOCK_OPEN);
        push_range(&mut top, ts, ta, tz2);
        push_str(&mut top, TOP_BLOCK_CLOSE);
        proof {
            assert(dot_class@.subrange(0, dot_class@.len() as int) =~= dot_class@);
        }
        let ghost before = parts_view(parts@);
        parts.insert(0, top);
        proof {
            assert(parts_view(parts@) =~= seq![top@] + before);
        }
    }
    if parts.len() == 0 {
        let mut out = dot_class;
        push_str(&mut out, BLOCK_OPEN);
        push_range(&mut out, ts, 0, ts.len());
        push_str(&mut out, BLOCK_CLOSE);
        proof {
            assert(ts@.subrange(0, ts@.len() as int) =~= ts@);
        }
        return out;
    }
    join_parts(&parts, NEWLINE)
}


pub const CSS_HOVER_PREFIX: &'static str = "`css!` generates class `";
pub const CSS_HOVER_MIDDLE: &'static str = "`.\n\nCompiled selector preview:\n```css\n";
pub const CSS_HOVER_SUFFIX: &'static str = "\n```";
pub const GLOBAL_HOVER_PREFIX: &'static str = "`global_css!` injects CSS with style id `";
pub const GLOBAL_HOVER_SUFFIX: &'static str = "`.";
pub const CLASS_PREFIX: &'static str = "css-";
pub const STYLE_ID_PREFIX: &'static str = "gcss-";

/// The low 24 bits of the FNV-1a hash of a CSS text.
pub open spec fn style_hash(text: Seq<u8>) -> int {
    (spec_fnv1a(text) as int) % 0x100_0000
}

/// The class that `css!` generates for a CSS text: `css-` and six hex digits.
pub open spec fn spec_class_name(text: Seq<u8>) -> Seq<u8> {
    CLASS_PREFIX.spec_bytes() + hex6(style_hash(text))
}

/// The diagnostics and hovers of one `css!` or `global_css!` invocation.
pub open spec fn spec_css(b: Seq<u8>, inv: MacroInvocation) -> (Seq<SpecNote>, Seq<SpecNote>) {
    let d0 = if !inv.closed {
        seq![
            note(
                if inv.whole.end > 0 {
                    inv.whole.end - 1
                } else {
                    0
                },
                inv.whole.end as int,
                UNCLOSED_CSS.spec_bytes(),
            ),
        ]
    } else {
        seq![]
    };
    let (ex, d1) = spec_extract_css(b, inv);
    match ex {
        None => (d0 + d1, seq![]),
        Some((text, off)) => {
            let hovers = if inv.kind == MacroKind::Css {
                let class = spec_class_name(text);
                seq![
                    SpecNote {
                        range: inv.name_range,
                        message: CSS_HOVER_PREFIX.spec_bytes() + class + CSS_HOVER_MIDDLE.spec_bytes()
                            + spec_css_preview(class, text) + CSS_HOVER_SUFFIX.spec_bytes(),
                    },
                ]
            } else if inv.kind == MacroKind::GlobalCss {
                seq![
                    SpecNote {
                        range: inv.name_range,
                        message: GLOBAL_HOVER_PREFIX.spec_bytes() + STYLE_ID_PREFIX.spec_bytes()
                            + hex6(style_hash(text)) + GLOBAL_HOVER_SUFFIX.spec_bytes(),
                    },
                ]
            } else {
                seq![]
            };
            (d0 + d1 + spec_css_text_diags(text, off, inv.kind), hovers)
        },
    }
}

/// Appends the diagnostics of one `css!`/`global_css!` invocation to
/// `diags` and, when `want_hovers`, its hover (the generated class with a
/// preview of the compiled selectors, or the global style id) to `hovers`.
pub fn diagnose_css(
    b: &[u8],
    invocation: &MacroInvocation,
    diags: &mut Vec<Note>,
    hovers: &mut Vec<Note>,
    want_hovers: bool,
)
    requires
        invocation.body.start <= invocation.body.end <= b@.len(),
        b@.len() <= MAX_TEXT_LEN,
    ensures
        notes_view(final(diags)@) == notes_view(old(diags)@) + spec_css(b@, *invocation).0,
        want_hovers ==> notes_view(final(hovers)@) == notes_view(old(hovers)@) + spec_css(
            b@,
            *invocation,
        ).1,
{
    let ghost d_before = notes_view(diags@);
    let ghost h_before = notes_view(hovers@);
    if !invocation.closed {
        let whole_end = invocation.whole.end;
        let start = if whole_end > 0 {
            whole_end - 1
        } else {
            0
        };
        push_note(diags, ByteRange::new(start, whole_end), msg(UNCLOSED_CSS));
    }
    let ghost d0 = notes_view(diags@);
    let extracted = extract_css_text(b, invocation, diags);
    let (text, off) = match extracted {
        Some(x) => x,
        None => {
            proof {
                assert(notes_view(hovers@) =~= h_before + seq![]);
                if invocation.closed {
                    assert(d0 =~= d_before);
                }
                assert(notes_view(diags@) =~= d_before + spec_css(b@, *invocation).0);
            }
            return ;
        },
    };
    diagnose_css_text(text.as_slice(), off, invocation.kind, diags);
    proof {
        if invocation.closed {
            assert(d0 =~= d_before);
        }
        assert(notes_view(diags@) =~= d_before + spec_css(b@, *invocation).0);
    }
    if want_hovers {
        let hash = fnv1a_hash(text.as_slice()) & 0x00ff_ffff;
        proof {
            let full = spec_fnv1a(text@);
            assert(full & 0x00ff_ffff == full % 0x100_0000) by (bit_vector);
        }
        match invocation.kind {
            MacroKind::Css => {
                let mut class_name = msg(CLASS_PREFIX);
                push_hex6(&mut class_name, hash);
                let preview = generate_css_preview(class_name.as_slice(), text.as_slice());
                let mut message = msg(CSS_HOVER_PREFIX);
                push_range(&mut message, class_name.as_slice(), 0, class_name.len());
                push_str(&mut message, CSS_HOVER_MIDDLE);
                push_range(&mut message, preview.as_slice(), 0, preview.len());
                push_str(&mut message, CSS_HOVER_SUFFIX);
                proof {
                    assert(class_name@.subrange(0, class_name@.len() as int) =~= class_name@);
                    assert(preview@.subrange(0, preview@.len() as int) =~= preview@);
                }
                push_note(hovers, invocation.name_range, message);
                assert(notes_view(hovers@) =~= h_before + spec_css(b@, *invocation).1);
            },
            MacroKind::GlobalCss => {
                let mut message = msg(GLOBAL_HOVER_PREFIX);
                push_str(&mut message, STYLE_ID_PREFIX);
                push_hex6(&mut message, hash);
                push_str(&mut message, GLOBAL_HOVER_SUFFIX);
                push_note(hovers, invocation.name_range, message);
                assert(notes_view(hovers@) =~= h_before + spec_css(b@, *invocation).1);
            },
            MacroKind::Render => {
                assert(notes_view(hovers@) =~= h_before + spec_css(b@, *invocation).1);
            },
        }
    }
}

proof fn lemma_brace_pass_text(
    css: Seq<u8>,
    off: int,
    kind: MacroKind,
    idx: int,
    stack: Seq<int>,
    diags: Seq<SpecNote>,
)
    requires
        notes_text(diags),
    ensures
        notes_text(spec_brace_pass(css, off, kind, idx, stack, diags).1),
    decreases css.len() - idx,
{
    lemma_encoded_valid(NESTED_SELECTOR@);
    lemma_encoded_valid(UNBALANCED_CLOSING_BRACE@);
    if !(idx < 0 || idx >= css.len()) {
        if css[idx] == LEFT_BRACE {
            let ss = spec_selector_start(css, idx);
            let d = if kind == MacroKind::Css && bad_nested_selector(trim(css.subrange(ss, idx))) {
                diags.push(note(off + ss, off + idx, NESTED_SELECTOR.spec_bytes()))
            } else {
                diags
            };
            lemma_brace_pass_text(css, off, kind, idx + 1, stack.push(idx), d);
        } else if css[idx] == RIGHT_BRACE {
            if stack.len() == 0 {
                lemma_brace_pass_text(
                    css,
                    off,
                    kind,
                    idx + 1,
                    stack,
                    diags.push(note(off + idx, off + idx + 1, UNBALANCED_CLOSING_BRACE.spec_bytes())),
                );
            } else {
                lemma_brace_pass_text(css, off, kind, idx + 1, stack.drop_last(), diags);
            }
        } else {
            lemma_brace_pass_text(css, off, kind, idx + 1, stack, diags);
        }
    }
}

proof fn lemma_segment_pass_text(
    css: Seq<u8>,
    off: int,
    idx: int,
    seg_start: int,
    depth: int,
    diags: Seq<SpecNote>,
)
    requires
        notes_text(diags),
    ensures
        notes_text(spec_segment_pass(css, off, idx, seg_start, depth, diags)),
    decreases css.len() - idx,
{
    lemma_encoded_valid(UNTERMINATED_DECLARATION@);
    let e = if idx < 0 || idx >= css.len() {
        css.len() as int
    } else {
        idx
    };
    lemma_notes_text_join(diags, spec_check_segment(css, seg_start, e, off));
    if !(idx < 0 || idx >= css.len()) {
        if css[idx] == LEFT_BRACE {
            lemma_segment_pass_text(
                css,
                off,
                idx + 1,
                idx + 1,
                depth + 1,
                diags + spec_check_segment(css, seg_start, idx, off),
            );
        } else if css[idx] == RIGHT_BRACE {
            lemma_segment_pass_text(
                css,
                off,
                idx + 1,
                idx + 1,
                if depth > 0 {
                    depth - 1
                } else {
                    0
                },
                diags + spec_check_segment(css, seg_start, idx, off),
            );
        } else if css[idx] == SEMICOLON && depth <= 1 {
            lemma_segment_pass_text(css, off, idx + 1, idx + 1, depth, diags);
        } else {
            lemma_segment_pass_text(css, off, idx + 1, seg_start, depth, diags);
        }
    }
}

/// Every diagnostic message of a `css!` or `global_css!` invocation is text.
pub proof fn lemma_css_diags_text(b: Seq<u8>, inv: MacroInvocation)
    ensures
        notes_text(spec_css(b, inv).0),
{
    lemma_encoded_valid(UNCLOSED_CSS@);
    lemma_encoded_valid(UNCLOSED_CSS_STRING@);
    lemma_encoded_valid(UNBALANCED_OPENING_BRACE@);
    let (ex, d1) = spec_extract_css(b, inv);
    assert(notes_text(d1));
    if let Some((text, off)) = ex {
        let (stack, d) = spec_brace_pass(text, off, inv.kind, 0, seq![], seq![]);
        lemma_brace_pass_text(text, off, inv.kind, 0, seq![], seq![]);
        let u = spec_unclosed_braces(stack, off);
        assert(notes_text(u));
        lemma_notes_text_join(d, u);
        lemma_segment_pass_text(text, off, 0, 0, 0, d + u);
    }
}

/// Bytes without a backslash pass through the unescaping unchanged.
proof fn lemma_unescape_plain(w: Seq<u8>, r: Seq<u8>)
    requires
        forall|k: int| 0 <= k < w.len() ==> #[trigger] w[k] != BACKSLASH,
    ensures
        spec_unescape(w + r) == w + spec_unescape(r),
    decreases w.len(),
{
    if w.len() > 0 {
        assert((w + r)[0] == w[0]);
        assert((w + r).skip(1) =~= w.skip(1) + r);
        lemma_unescape_plain(w.skip(1), r);
        assert(seq![w[0]] + (w.skip(1) + spec_unescape(r)) =~= w + spec_unescape(r));
    } else {
        assert(w + r =~= r);
        assert(w + spec_unescape(r) =~= spec_unescape(r));
    }
}

/// The first character of a valid sequence, and the rest, are valid, and
/// the first one ends where the text can be cut.
proof fn lemma_first_char_split(v: Seq<u8>)
    requires
        valid_utf8(v),
        v.len() > 0,
    ensures
        1 <= length_of_first_scalar(v) <= v.len(),
        valid_utf8(v.take(length_of_first_scalar(v))),
        valid_utf8(v.skip(length_of_first_scalar(v))),
        forall|k: int| 1 <= k < length_of_first_scalar(v) ==> 0x80 <= #[trigger] v[k] < 0xc0,
{
    let n = length_of_first_scalar(v);
    reveal_with_fuel(is_char_boundary, 2);
    assert(pop_first_scalar(v) =~= v.skip(n));
    assert(is_char_boundary(v, n));
    valid_utf8_split(v, n);
    assert(v.subrange(0, n) =~= v.take(n));
    assert(v.subrange(n, v.len() as int) =~= v.skip(n));
}

/// Resolving escapes keeps text valid.
pub proof fn lemma_unescape_valid(v: Seq<u8>)
    requires
        valid_utf8(v),
    ensures
        valid_utf8(spec_unescape(v)),
    decreases v.len(),
{
    if v.len() > 0 {
        if v[0] == BACKSLASH && v.len() > 1 {
            let c = v[1];
            lemma_after_ascii(v, 0);
            lemma_cut_valid(v, 1, v.len() as int);
            let v1 = v.skip(1);
            assert(v.subrange(1, v.len() as int) =~= v1);
            lemma_first_char_split(v1);
            let n = length_of_first_scalar(v1);
            if c < 0x80 {
                assert(n == 1);
                assert(v1.skip(1) =~= v.skip(2));
                lemma_unescape_valid(v.skip(2));
                let out = if c == 0x6e {
                    seq![LINE_FEED]
                } else if c == 0x74 {
                    seq![TAB]
                } else if c == 0x72 {
                    seq![CARRIAGE_RETURN]
                } else if c == DOUBLE_QUOTE {
                    seq![DOUBLE_QUOTE]
                } else if c == BACKSLASH {
                    seq![BACKSLASH]
                } else {
                    seq![BACKSLASH, c]
                };
                lemma_ascii_valid(out);
                lemma_join_valid(out, spec_unescape(v.skip(2)));
            } else {
                let w = v1.take(n).skip(1);
                let rest = v1.skip(n);
                assert(v.skip(2) =~= w + rest);
                assert forall|k: int| 0 <= k < w.len() implies #[trigger] w[k] != BACKSLASH by {
                    assert(w[k] == v1[k + 1]);
                }
                lemma_unescape_plain(w, rest);
                lemma_unescape_valid(rest);
                assert(seq![BACKSLASH, c] + (w + spec_unescape(rest)) =~= seq![BACKSLASH]
                    + v1.take(n) + spec_unescape(rest));
                lemma_ascii_valid(seq![BACKSLASH]);
                lemma_join_valid(seq![BACKSLASH], v1.take(n));
                lemma_join_valid(seq![BACKSLASH] + v1.take(n), spec_unescape(rest));
            }
        } else {
            lemma_first_char_split(v);
            let n = length_of_first_scalar(v);
            let w = v.take(n).skip(1);
            let rest = v.skip(n);
            assert(v.skip(1) =~= w + rest);
            assert forall|k: int| 0 <= k < w.len() implies #[trigger] w[k] != BACKSLASH by {
                assert(w[k] == v[k + 1]);
            }
            lemma_unescape_plain(w, rest);
            lemma_unescape_valid(rest);
            if v.len() == 1 {
                lemma_ascii_valid(seq![BACKSLASH]);
            }
            assert(seq![v[0]] + (w + spec_unescape(rest)) =~= v.take(n) + spec_unescape(rest));
            lemma_join_valid(v.take(n), spec_unescape(rest));
        }
    }
}

/// Replacing splits where the input is split.
proof fn lemma_replace_split(s: Seq<u8>, rep: Seq<u8>, k: int)
    requires
        0 <= k <= s.len(),
    ensures
        replace_ampersand(s, rep) == replace_ampersand(s.take(k), rep) + replace_ampersand(
            s.skip(k),
            rep,
        ),
    decreases s.len(),
{
    if k == s.len() {
        assert(s.take(k) =~= s);
        assert(s.skip(k) =~= Seq::<u8>::empty());
        assert(replace_ampersand(s, rep) + seq![] =~= replace_ampersand(s, rep));
    } else {
        lemma_replace_split(s.drop_last(), rep, k);
        assert(s.drop_last().take(k) =~= s.take(k));
        assert(s.skip(k).drop_last() =~= s.drop_last().skip(k));
        assert(s.skip(k).last() == s.last());
        let tail = if s.last() == AMPERSAND {
            rep
        } else {
            seq![s.last()]
        };
        assert(replace_ampersand(s.take(k), rep) + replace_ampersand(s.drop_last().skip(k), rep)
            + tail =~= replace_ampersand(s.take(k), rep) + (replace_ampersand(
            s.drop_last().skip(k),
            rep,
        ) + tail));
    }
}

/// Without an `&`, replacing changes nothing.
proof fn lemma_replace_none(s: Seq<u8>, rep: Seq<u8>)
    requires
        forall|k: int| 0 <= k < s.len() ==> #[trigger] s[k] != AMPERSAND,
    ensures
        replace_ampersand(s, rep) == s,
    decreases s.len(),
{
    if s.len() > 0 {
        lemma_replace_none(s.drop_last(), rep);
        assert(s.drop_last() + seq![s.last()] =~= s);
    }
}

/// Replacing each `&` of a text by a text gives a text.
proof fn lemma_replace_valid(s: Seq<u8>, rep: Seq<u8>)
    requires
        valid_utf8(s),
        valid_utf8(rep),
    ensures
        valid_utf8(replace_ampersand(s, rep)),
    decreases s.len(),
{
    if exists|k: int| 0 <= k < s.len() && s[k] == AMPERSAND {
        let k = choose|k: int| 0 <= k < s.len() && s[k] == AMPERSAND;
        lemma_cut_valid(s, 0, k);
        lemma_after_ascii(s, k);
        lemma_cut_valid(s, k + 1, s.len() as int);
        assert(s.subrange(0, k) =~= s.take(k));
        assert(s.subrange(k + 1, s.len() as int) =~= s.skip(k + 1));
        lemma_replace_valid(s.take(k), rep);
        lemma_replace_valid(s.skip(k + 1), rep);
        lemma_replace_split(s, rep, k);
        let r = s.skip(k);
        lemma_replace_split(r, rep, 1);
        assert(r.take(1) =~= seq![AMPERSAND]);
        assert(r.skip(1) =~= s.skip(k + 1));
        assert(replace_ampersand(seq![AMPERSAND], rep) =~= rep) by {
            let one = seq![AMPERSAND];
            assert(one.drop_last() =~= Seq::<u8>::empty());
            assert(replace_ampersand(one.drop_last(), rep) =~= Seq::<u8>::empty());
            assert(one.last() == AMPERSAND);
            assert(replace_ampersand(one, rep) == replace_ampersand(one.drop_last(), rep) + rep);
        }
        lemma_join_valid(rep, replace_ampersand(s.skip(k + 1), rep));
        lemma_join_valid(
            replace_ampersand(s.take(k), rep),
            rep + replace_ampersand(s.skip(k + 1), rep),
        );
    } else {
        lemma_replace_none(s, rep);
    }
}

/// Removing a valid prefix over and over keeps a text valid.
proof fn lemma_trim_start_matches_valid(s: Seq<u8>, p: Seq<u8>)
    requires
        valid_utf8(s),
        valid_utf8(p),
    ensures
        valid_utf8(trim_start_matches(s, p)),
    decreases s.len(),
{
    if p.len() > 0 && starts_with(s, p) {
        lemma_prefix_boundary(s, p);
        valid_utf8_split(s, p.len() as int);
        assert(s.subrange(p.len() as int, s.len() as int) =~= s.skip(p.len() as int));
        lemma_trim_start_matches_valid(s.skip(p.len() as int), p);
    }
}

/// The text before the first `&` or `@` is valid.
proof fn lemma_before_nested_valid(t: Seq<u8>, k: int)
    requires
        valid_utf8(t),
        0 <= k,
    ensures
        valid_utf8(before_nested(t, k)),
    decreases t.len() - k,
{
    if k < t.len() {
        if t[k] == AMPERSAND || t[k] == AT_SIGN {
            lemma_cut_valid(t, 0, k);
            assert(t.subrange(0, k) =~= t.take(k));
        } else {
            lemma_before_nested_valid(t, k + 1);
        }
    }
}

/// Dropping a trailing ASCII byte over and over keeps a text valid.
proof fn lemma_trim_end_byte_valid(s: Seq<u8>, c: u8)
    requires
        valid_utf8(s),
        c < 0x80,
    ensures
        valid_utf8(trim_end_byte(s, c)),
    decreases s.len(),
{
    if s.len() > 0 && s.last() == c {
        lemma_cut_valid(s, 0, s.len() - 1);
        assert(s.subrange(0, s.len() - 1) =~= s.drop_last());
        lemma_trim_end_byte_valid(s.drop_last(), c);
    }
}

/// Valid parts joined by a valid separator give a valid text.
proof fn lemma_join_parts_valid(parts: Seq<Seq<u8>>, sep: Seq<u8>)
    requires
        forall|k: int| 0 <= k < parts.len() ==> valid_utf8(#[trigger] parts[k]),
        valid_utf8(sep),
    ensures
        valid_utf8(join(parts, sep)),
    decreases parts.len(),
{
    if parts.len() > 1 {
        assert forall|k: int| 0 <= k < parts.drop_last().len() implies valid_utf8(
            #[trigger] parts.drop_last()[k],
        ) by {
            assert(parts.drop_last()[k] == parts[k]);
        }
        lemma_join_parts_valid(parts.drop_last(), sep);
        assert(valid_utf8(parts.last()));
        lemma_join_valid(join(parts.drop_last(), sep), sep);
        lemma_join_valid(join(parts.drop_last(), sep) + sep, parts.last());
    } else if parts.len() == 1 {
        assert(valid_utf8(parts[0]));
    }
}

/// Six hex digits are ASCII.
proof fn lemma_hex6_valid(h: int)
    ensures
        valid_utf8(hex6(h)),
{
    let x = hex6(h);
    assert forall|k: int| 0 <= k < x.len() implies #[trigger] x[k] < 0x80 by {}
    lemma_ascii_valid(x);
}

/// Every preview rule of the blocks of a text is text.
proof fn lemma_preview_parts_valid(class: Seq<u8>, t: Seq<u8>, rs: int)
    requires
        valid_utf8(class),
        valid_utf8(t),
        0 <= rs,
        on_char_boundary(t, rs),
    ensures
        forall|k: int|
            0 <= k < spec_preview_parts(class, t, rs).len() ==> valid_utf8(
                #[trigger] spec_preview_parts(class, t, rs)[k],
            ),
    decreases t.len() - rs,
{
    lemma_find_byte_bounds(t, rs, LEFT_BRACE);
    if let Some(open) = spec_find_byte(t, rs, LEFT_BRACE) {
        lemma_find_byte_bounds(t, open + 1, RIGHT_BRACE);
        lemma_cut_valid(t, rs, open);
        let selector = trim(t.subrange(rs, open));
        lemma_trim_valid(t.subrange(rs, open));
        let close = match spec_find_byte(t, open + 1, RIGHT_BRACE) {
            Some(c) => c,
            None => t.len() as int,
        };
        lemma_after_ascii(t, open);
        lemma_cut_valid(t, open + 1, close);
        let props = trim(t.subrange(open + 1, close));
        lemma_trim_valid(t.subrange(open + 1, close));
        let next = if close < t.len() {
            close + 1
        } else {
            t.len() as int
        };
        if close < t.len() {
            lemma_after_ascii(t, close);
        }
        lemma_preview_parts_valid(class, t, next);
        lemma_encoded_valid(DOT@);
        lemma_encoded_valid(BLOCK_OPEN@);
        lemma_encoded_valid(BLOCK_CLOSE@);
        lemma_encoded_valid(MEDIA@);
        lemma_encoded_valid(MEDIA_PREFIX@);
        lemma_encoded_valid(MEDIA_CLASS_OPEN@);
        lemma_encoded_valid(MEDIA_BLOCK_CLOSE@);
        let here = if selector.len() > 0 && selector[0] == AMPERSAND {
            let rep = DOT.spec_bytes() + class;
            lemma_join_valid(DOT.spec_bytes(), class);
            lemma_replace_valid(selector, rep);
            let a = replace_ampersand(selector, rep);
            lemma_join_valid(a, BLOCK_OPEN.spec_bytes());
            lemma_join_valid(a + BLOCK_OPEN.spec_bytes(), props);
            lemma_join_valid(a + BLOCK_OPEN.spec_bytes() + props, BLOCK_CLOSE.spec_bytes());
            seq![a + BLOCK_OPEN.spec_bytes() + props + BLOCK_CLOSE.spec_bytes()]
        } else if starts_with(selector, MEDIA.spec_bytes()) {
            lemma_trim_start_matches_valid(selector, MEDIA.spec_bytes());
            let q = trim(trim_start_matches(selector, MEDIA.spec_bytes()));
            lemma_trim_valid(trim_start_matches(selector, MEDIA.spec_bytes()));
            let m1 = MEDIA_PREFIX.spec_bytes() + q;
            lemma_join_valid(MEDIA_PREFIX.spec_bytes(), q);
            lemma_join_valid(m1, MEDIA_CLASS_OPEN.spec_bytes());
            let m2 = m1 + MEDIA_CLASS_OPEN.spec_bytes();
            lemma_join_valid(m2, class);
            lemma_join_valid(m2 + class, BLOCK_OPEN.spec_bytes());
            let m3 = m2 + class + BLOCK_OPEN.spec_bytes();
            lemma_join_valid(m3, props);
            lemma_join_valid(m3 + props, MEDIA_BLOCK_CLOSE.spec_bytes());
            seq![m3 + props + MEDIA_BLOCK_CLOSE.spec_bytes()]
        } else {
            seq![]
        };
        let rest = spec_preview_parts(class, t, next);
        let all = here + rest;
        assert(all == spec_preview_parts(class, t, rs));
        assert forall|k: int| 0 <= k < all.len() implies valid_utf8(#[trigger] all[k]) by {
            if k < here.len() {
                assert(all[k] == here[k]);
            } else {
                assert(all[k] == rest[k - here.len()]);
            }
        }
    }
}

/// The compiled-selector preview of a text, for a class that is text, is
/// text.
proof fn lemma_css_preview_valid(class: Seq<u8>, css: Seq<u8>)
    requires
        valid_utf8(class),
        valid_utf8(css),
    ensures
        valid_utf8(spec_css_preview(class, css)),
{
    let t = trim(css);
    lemma_trim_valid(css);
    lemma_encoded_valid(DOT@);
    lemma_encoded_valid(EMPTY_BLOCK@);
    lemma_encoded_valid(BLOCK_OPEN@);
    lemma_encoded_valid(BLOCK_CLOSE@);
    lemma_encoded_valid(TOP_BLOCK_CLOSE@);
    lemma_encoded_valid(NEWLINE@);
    lemma_join_valid(DOT.spec_bytes(), class);
    let dc = DOT.spec_bytes() + class;
    lemma_join_valid(dc, EMPTY_BLOCK.spec_bytes());
    lemma_join_valid(dc, BLOCK_OPEN.spec_bytes());
    let dco = dc + BLOCK_OPEN.spec_bytes();
    if t.len() > 0 {
        lemma_preview_parts_valid(class, t, 0);
        let parts = spec_preview_parts(class, t, 0);
        lemma_before_nested_valid(t, 0);
        lemma_trim_valid(before_nested(t, 0));
        lemma_trim_end_byte_valid(trim(before_nested(t, 0)), SEMICOLON);
        let top = trim_end_byte(trim(before_nested(t, 0)), SEMICOLON);
        lemma_join_valid(dco, top);
        lemma_join_valid(dco + top, TOP_BLOCK_CLOSE.spec_bytes());
        let first = seq![dco + top + TOP_BLOCK_CLOSE.spec_bytes()];
        let all = if top.len() > 0 && top.contains(COLON) {
            first + parts
        } else {
            parts
        };
        assert forall|k: int| 0 <= k < all.len() implies valid_utf8(#[trigger] all[k]) by {
            if top.len() > 0 && top.contains(COLON) {
                if k == 0 {
                    assert(all[k] == first[0]);
                } else {
                    assert(all[k] == parts[k - 1]);
                }
            }
        }
        lemma_join_parts_valid(all, NEWLINE.spec_bytes());
        lemma_join_valid(dco, t);
        lemma_join_valid(dco + t, BLOCK_CLOSE.spec_bytes());
    }
}

/// The CSS text of an invocation whose body can be cut out of a valid
/// source is text.
proof fn lemma_extract_valid(b: Seq<u8>, inv: MacroInvocation)
    requires
        valid_utf8(b),
        inv.body.start <= inv.body.end <= b.len(),
        on_char_boundary(b, inv.body.start as int),
        on_char_boundary(b, inv.body.end as int),
    ensures
        spec_extract_css(b, inv).0 matches Some((t, _)) ==> valid_utf8(t),
{
    let bs = inv.body.start as int;
    let be = inv.body.end as int;
    lemma_cut_valid(b, bs, be);
    let body = b.subrange(bs, be);
    lemma_trim_valid(body);
    lemma_trim_start_suffix(body);
    lemma_trim_end_prefix(body);
    let start = bs + (body.len() - trim_start(body).len());
    let end = bs + trim_end(body).len();
    if start < end && (b[start] == DOUBLE_QUOTE || b[start] == SINGLE_QUOTE) {
        lemma_scan_string_from_quote(b, b[start], start + 1);
        if let Some(se) = spec_scan_string(b, start) {
            if se <= end {
                lemma_after_ascii(b, start);
                lemma_cut_valid(b, start + 1, se - 1);
                lemma_unescape_valid(b.subrange(start + 1, se - 1));
            }
        }
    }
}

/// Every hover message of a `css!` or `global_css!` invocation whose body
/// can be cut out of a valid source is text.
pub proof fn lemma_css_hovers_text(b: Seq<u8>, inv: MacroInvocation)
    requires
        valid_utf8(b),
        inv.body.start <= inv.body.end <= b.len(),
        on_char_boundary(b, inv.body.start as int),
        on_char_boundary(b, inv.body.end as int),
    ensures
        notes_text(spec_css(b, inv).1),
{
    lemma_extract_valid(b, inv);
    if let Some((text, _)) = spec_extract_css(b, inv).0 {
        let h = hex6(style_hash(text));
        lemma_hex6_valid(style_hash(text));
        lemma_encoded_valid(CLASS_PREFIX@);
        lemma_join_valid(CLASS_PREFIX.spec_bytes(), h);
        let class = spec_class_name(text);
        lemma_css_preview_valid(class, text);
        lemma_wrap2_valid(
            CSS_HOVER_PREFIX@,
            class,
            CSS_HOVER_MIDDLE@,
            spec_css_preview(class, text),
            CSS_HOVER_SUFFIX@,
        );
        lemma_encoded_valid(STYLE_ID_PREFIX@);
        lemma_join_valid(STYLE_ID_PREFIX.spec_bytes(), h);
        lemma_wrap_valid(GLOBAL_HOVER_PREFIX@, STYLE_ID_PREFIX.spec_bytes() + h, GLOBAL_HOVER_SUFFIX@);
        assert(GLOBAL_HOVER_PREFIX.spec_bytes() + STYLE_ID_PREFIX.spec_bytes() + h
            + GLOBAL_HOVER_SUFFIX.spec_bytes() =~= GLOBAL_HOVER_PREFIX.spec_bytes() + (
        STYLE_ID_PREFIX.spec_bytes() + h) + GLOBAL_HOVER_SUFFIX.spec_bytes());
    }
}

proof fn lemma_rfind_rule_end_at(css: Seq<u8>, idx: int, p: int)
    requires
        -1 <= p < idx <= css.len(),
        p >= 0 ==> css[p] == RIGHT_BRACE || css[p] == SEMICOLON,
        forall|k: int| p < k < idx ==> #[trigger] css[k] != RIGHT_BRACE && css[k] != SEMICOLON,
    ensures
        spec_rfind_rule_end(css, idx) == if p >= 0 {
            Some(p)
        } else {
            None::<int>
        },
    decreases idx,
{
    if idx - 1 > p {
        lemma_rfind_rule_end_at(css, idx - 1, p);
    }
}

/// The selector of a block in a `css!` body is the trimmed text between
/// the last `}` or `;` before its `{` (the start of the text when there is
/// none) and the `{`, whatever declarations come before. The block is
/// reported as a nested selector that does not start with `&` exactly when
/// that selector is not empty, does not start with `@` or `&`, and holds no
/// `:`.
pub proof fn law_nested_selector_after_last_rule(
    css: Seq<u8>,
    off: int,
    stack: Seq<int>,
    diags: Seq<SpecNote>,
    idx: int,
    p: int,
)
    requires
        -1 <= p < idx < css.len(),
        css[idx] == LEFT_BRACE,
        p >= 0 ==> css[p] == RIGHT_BRACE || css[p] == SEMICOLON,
        forall|k: int| p < k < idx ==> #[trigger] css[k] != RIGHT_BRACE && css[k] != SEMICOLON,
    ensures
        ({
            let sel = trim(css.subrange(p + 1, idx));
            spec_brace_pass(css, off, MacroKind::Css, idx, stack, diags) == spec_brace_pass(
                css,
                off,
                MacroKind::Css,
                idx + 1,
                stack.push(idx),
                if sel.len() > 0 && sel[0] != AT_SIGN && sel[0] != AMPERSAND && !sel.contains(
                    COLON,
                ) {
                    diags.push(note(off + p + 1, off + idx, NESTED_SELECTOR.spec_bytes()))
                } else {
                    diags
                },
            )
        }),
{
    lemma_rfind_rule_end_at(css, idx, p);
    assert(spec_selector_start(css, idx) == p + 1);
}

/// A visible ASCII character: neither whitespace nor a control byte.
pub open spec fn is_visible_ascii(c: u8) -> bool {
    0x21 <= c <= 0x7e
}

/// Bytes that are all ASCII whitespace.
pub open spec fn all_ascii_ws(w: Seq<u8>) -> bool {
    forall|k: int| 0 <= k < w.len() ==> spec_is_ascii_ws(#[trigger] w[k])
}

proof fn lemma_trim_start_pad(w: Seq<u8>, x: Seq<u8>)
    requires
        all_ascii_ws(w),
        x.len() > 0,
        is_visible_ascii(x[0]),
    ensures
        trim_start(w + x) == x,
    decreases w.len(),
{
    if w.len() > 0 {
        assert((w + x)[0] == w[0]);
        assert((w + x).skip(1) =~= w.skip(1) + x);
        lemma_trim_start_pad(w.skip(1), x);
    } else {
        assert(w + x =~= x);
    }
}

proof fn lemma_trim_end_pad(y: Seq<u8>, w: Seq<u8>)
    requires
        all_ascii_ws(w),
        y.len() > 0,
        is_visible_ascii(y.last()),
    ensures
        trim_end(y + w) == y,
    decreases w.len(),
{
    if w.len() > 0 {
        let n = (y + w).len() as int;
        assert((y + w)[n - 1] == w.last());
        assert((y + w).take(n - 1) =~= y + w.drop_last());
        lemma_trim_end_pad(y, w.drop_last());
    } else {
        assert(y + w =~= y);
    }
}

/// Padding `t` with ASCII whitespace on both sides, where `t` starts and
/// ends with a visible character: how each trim sees it.
proof fn lemma_trim_padded(w1: Seq<u8>, t: Seq<u8>, w2: Seq<u8>)
    requires
        all_ascii_ws(w1),
        all_ascii_ws(w2),
        t.len() > 0,
        is_visible_ascii(t[0]),
        is_visible_ascii(t.last()),
    ensures
        trim_start(w1 + t + w2) == t + w2,
        trim_end(w1 + t + w2) == w1 + t,
        trim(w1 + t + w2) == t,
{
    assert(w1 + t + w2 =~= w1 + (t + w2));
    lemma_trim_start_pad(w1, t + w2);
    lemma_trim_end_pad(w1 + t, w2);
    lemma_trim_end_pad(t, w2);
}

/// A `css!` body names its CSS text the same way in token form and in
/// string form: the token body ` t ` (any ASCII whitespace around it) and
/// the string body `"t"` both give the text `t` itself, trimmed of the
/// padding and with nothing of the quotes, so both hovers name the same
/// generated class.
pub proof fn law_token_and_string_forms_agree(
    b1: Seq<u8>,
    inv1: MacroInvocation,
    w1: Seq<u8>,
    w2: Seq<u8>,
    b2: Seq<u8>,
    inv2: MacroInvocation,
    w3: Seq<u8>,
    w4: Seq<u8>,
    t: Seq<u8>,
)
    requires
        inv1.body.start <= inv1.body.end <= b1.len(),
        b1.subrange(inv1.body.start as int, inv1.body.end as int) == w1 + t + w2,
        inv2.body.start <= inv2.body.end <= b2.len(),
        b2.subrange(inv2.body.start as int, inv2.body.end as int) == w3 + seq![DOUBLE_QUOTE] + t
            + seq![DOUBLE_QUOTE] + w4,
        all_ascii_ws(w1),
        all_ascii_ws(w2),
        all_ascii_ws(w3),
        all_ascii_ws(w4),
        t.len() > 0,
        is_visible_ascii(t[0]),
        is_visible_ascii(t.last()),
        t[0] != DOUBLE_QUOTE && t[0] != SINGLE_QUOTE,
        forall|k: int| 0 <= k < t.len() ==> #[trigger] t[k] != DOUBLE_QUOTE && t[k] != BACKSLASH,
        inv1.kind == MacroKind::Css,
        inv2.kind == MacroKind::Css,
    ensures
        spec_extract_css(b1, inv1) == (Some((t, inv1.body.start + w1.len())), Seq::<SpecNote>::empty()),
        spec_extract_css(b2, inv2) == (Some((t, inv2.body.start + w3.len() + 1)), Seq::<SpecNote>::empty()),
        spec_css(b1, inv1).1.len() == 1,
        spec_css(b2, inv2).1.len() == 1,
        spec_css(b1, inv1).1[0].message == spec_css(b2, inv2).1[0].message,
{
    lemma_trim_padded(w1, t, w2);
    let bs1 = inv1.body.start as int;
    let body1 = b1.subrange(bs1, inv1.body.end as int);
    assert(b1[bs1 + w1.len()] == body1[w1.len() as int]);
    assert(body1[w1.len() as int] == t[0]);

    let x = seq![DOUBLE_QUOTE] + t + seq![DOUBLE_QUOTE];
    assert(w3 + seq![DOUBLE_QUOTE] + t + seq![DOUBLE_QUOTE] + w4 =~= w3 + x + w4);
    assert(x[0] == DOUBLE_QUOTE);
    assert(x.last() == DOUBLE_QUOTE);
    lemma_trim_padded(w3, x, w4);
    let bs2 = inv2.body.start as int;
    let body2 = b2.subrange(bs2, inv2.body.end as int);
    let start = bs2 + w3.len();
    let q = start + t.len() + 1;
    assert(b2[start] == body2[w3.len() as int]);
    assert(body2[w3.len() as int] == x[0]);
    assert(b2[q] == body2[(w3.len() + t.len() + 1) as int]);
    assert(body2[(w3.len() + t.len() + 1) as int] == x[(t.len() + 1) as int]);
    assert forall|k: int| start + 1 <= k < q implies #[trigger] b2[k] != DOUBLE_QUOTE && b2[k]
        != BACKSLASH by {
        assert(b2[k] == body2[k - bs2]);
        assert(body2[k - bs2] == x[k - start]);
        assert(x[k - start] == t[k - start - 1]);
    }
    lemma_scan_string_closes(b2, DOUBLE_QUOTE, start + 1, q);
    let inner = b2.subrange(start + 1, q);
    assert(inner =~= t) by {
        assert forall|k: int| 0 <= k < t.len() implies inner[k] == t[k] by {
            assert(inner[k] == b2[start + 1 + k]);
            assert(b2[start + 1 + k] == body2[w3.len() + 1 + k]);
            assert(body2[w3.len() + 1 + k] == x[1 + k]);
        }
    }
    lemma_unescape_plain(t, Seq::<u8>::empty());
    assert(t + Seq::<u8>::empty() =~= t);
    assert(spec_unescape(Seq::<u8>::empty()) =~= Seq::<u8>::empty());
}

} // verus!
