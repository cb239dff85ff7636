//! Diagnostics and hovers for the body of a `render!` invocation: tags,
//! attributes and braced Rust expressions.

use vstd::prelude::*;
use vstd::math::{max, min};
use vstd::string::StringSliceAdditionalSpecFns;
use vstd::utf8::valid_utf8;

use crate::bytes::{
    is_ascii_ws, is_attr_key_continue, is_tag_name_continue, spec_is_ascii_ws,
    spec_is_attr_key_continue, spec_is_tag_name_continue, DOUBLE_QUOTE, EQUALS, GREATER_THAN,
    LEFT_BRACE, LESS_THAN, RIGHT_BRACE, SINGLE_QUOTE, SLASH,
};
use crate::bytes::range_eq_bytes;
use crate::report::{
    lemma_notes_view_push, msg, msg_with, msg_with2, note, notes_text, notes_view, push_note, Note,
    SpecNote,
};
use crate::scan::{
    lemma_find_tag_end_bounds, lemma_scan_balanced_from_bounds, lemma_scan_string_from_bounds,
    lemma_skip_trivia_bounds, lemma_skip_ws_until_bounds, find_tag_end, scan_balanced, scan_string,
    skip_rust_trivia, skip_ws_until, spec_find_tag_end, spec_scan_balanced, spec_scan_string,
    spec_skip_trivia, spec_skip_ws_until, ByteRange, MacroInvocation,
};
use crate::scan::lemma_scan_string_closes;
use crate::bytes::BACKSLASH;
use crate::text::{lemma_ascii_valid, lemma_encoded_valid, lemma_wrap2_valid, lemma_wrap_valid};

verus! {

pub const UNCLOSED_RENDER: &'static str = "unclosed render! macro delimiter";
pub const MISSING_CLOSING_GT: &'static str = "missing '>' in closing tag";
pub const ELEMENT_PREFIX: &'static str = "Crustal render element `<";
pub const MATCHED_SUFFIX: &'static str = ">`.\n\nMatched with its opening tag.";
pub const MISMATCH_PREFIX: &'static str = "mismatched closing tag: expected `</";
pub const MISMATCH_SUFFIX: &'static str = ">`";
pub const MISMATCH_HOVER_MIDDLE: &'static str = ">`.\n\nCurrently mismatched; expected `</";
pub const MISMATCH_HOVER_SUFFIX: &'static str = ">`.";
pub const UNEXPECTED_CLOSING: &'static str = "unexpected closing tag";
pub const NO_OPENING_SUFFIX: &'static str = ">`.\n\nNo matching opening tag is currently in scope.";
pub const MISSING_TAG_NAME: &'static str = "missing tag name";
pub const MISSING_OPENING_GT: &'static str = "missing '>' in opening tag";
pub const ELEMENT_SUFFIX: &'static str = ">`.\n\nSSR emits an HTML tag; the client renderer creates a DOM element.";
pub const UNBALANCED_EXPRESSION: &'static str = "unbalanced braced expression in render!";
pub const EXPRESSION_HOVER: &'static str = "Crustal render expression.\n\nSSR appends `ToString::to_string(&expr)`; the client renderer binds through `crustal_wasm::Bindable::bind`.";
pub const MISSING_CLOSING_TAG_PREFIX: &'static str = "missing closing tag for `<";
pub const SELF_CLOSING: &'static str = "self-closing render! tags are not supported";
pub const MISSING_EQUALS: &'static str = "attribute is missing `=`";
pub const MISSING_VALUE: &'static str = "attribute is missing a value";
pub const ATTRIBUTE_HOVER: &'static str = "Crustal render attribute.\n\nSSR serializes the value with `ToString` into `key=\"value\"`; the client renderer calls `set_attribute` with the same string value.";

/// End of the tag-name characters at `i`, before `end`.
pub open spec fn spec_tag_name_end(b: Seq<u8>, i: int, end: int) -> int
    decreases end - i,
{
    if 0 <= i < end && i < b.len() && spec_is_tag_name_continue(b[i]) {
        spec_tag_name_end(b, i + 1, end)
    } else {
        i
    }
}

/// End of the attribute-key characters at `i`, before `end`.
pub open spec fn spec_attr_key_end(b: Seq<u8>, i: int, end: int) -> int
    decreases end - i,
{
    if 0 <= i < end && i < b.len() && spec_is_attr_key_continue(b[i]) {
        spec_attr_key_end(b, i + 1, end)
    } else {
        i
    }
}

/// End of the run of non-whitespace bytes at `i`, before `end`.
pub open spec fn spec_word_end(b: Seq<u8>, i: int, end: int) -> int
    decreases end - i,
{
    if 0 <= i < end && i < b.len() && !spec_is_ascii_ws(b[i]) {
        spec_word_end(b, i + 1, end)
    } else {
        i
    }
}

pub proof fn lemma_tag_name_end_bounds(b: Seq<u8>, i: int, end: int)
    ensures
        i <= spec_tag_name_end(b, i, end),
        i <= end ==> spec_tag_name_end(b, i, end) <= end,
        i > end ==> spec_tag_name_end(b, i, end) == i,
    decreases end - i,
{
    if 0 <= i < end && i < b.len() && spec_is_tag_name_continue(b[i]) {
        lemma_tag_name_end_bounds(b, i + 1, end);
    }
}

pub proof fn lemma_attr_key_end_bounds(b: Seq<u8>, i: int, end: int)
    ensures
        i <= spec_attr_key_end(b, i, end),
        i <= end ==> spec_attr_key_end(b, i, end) <= end,
    decreases end - i,
{
    if 0 <= i < end && i < b.len() && spec_is_attr_key_continue(b[i]) {
        lemma_attr_key_end_bounds(b, i + 1, end);
    }
}

pub proof fn lemma_word_end_bounds(b: Seq<u8>, i: int, end: int)
    ensures
        i <= spec_word_end(b, i, end),
        i <= end ==> spec_word_end(b, i, end) <= end,
    decreases end - i,
{
    if 0 <= i < end && i < b.len() && !spec_is_ascii_ws(b[i]) {
        lemma_word_end_bounds(b, i + 1, end);
    }
}

fn tag_name_end(b: &[u8], i: usize, end: usize) -> (r: usize)
    requires
        end <= b@.len(),
    ensures
        r == spec_tag_name_end(b@, i as int, end as int),
{
    let mut j = i;
    while j < end && is_tag_name_continue(b[j])
        invariant
            end <= b@.len(),
            spec_tag_name_end(b@, j as int, end as int) == spec_tag_name_end(
                b@,
                i as int,
                end as int,
            ),
        decreases end - j,
    {
        j = j + 1;
    }
    j
}

fn attr_key_end(b: &[u8], i: usize, end: usize) -> (r: usize)
    requires
        end <= b@.len(),
    ensures
        r == spec_attr_key_end(b@, i as int, end as int),
{
    let mut j = i;
    while j < end && is_attr_key_continue(b[j])
        invariant
            end <= b@.len(),
            spec_attr_key_end(b@, j as int, end as int) == spec_attr_key_end(
                b@,
                i as int,
                end as int,
            ),
        decreases end - j,
    {
        j = j + 1;
    }
    j
}

fn word_end(b: &[u8], i: usize, end: usize) -> (r: usize)
    requires
        end <= b@.len(),
    ensures
        r == spec_word_end(b@, i as int, end as int),
{
    let mut j = i;
    while j < end && !is_ascii_ws(b[j])
        invariant
            end <= b@.len(),
            spec_word_end(b@, j as int, end as int) == spec_word_end(b@, i as int, end as int),
        decreases end - j,
    {
        j = j + 1;
    }
    j
}

/// Progress of the attribute scan of one tag.
pub ghost struct AttrState {
    pub i: int,
    pub diags: Seq<SpecNote>,
    pub hovers: Seq<SpecNote>,
}

/// Where an attribute value that starts at `v` ends: past a string
/// literal, past a braced expression, or at the next whitespace.
pub open spec fn spec_value_end(b: Seq<u8>, v: int, end: int) -> int {
    if b[v] == DOUBLE_QUOTE || b[v] == SINGLE_QUOTE {
        match spec_scan_string(b, v) {
            Some(x) => x,
            None => end,
        }
    } else if b[v] == LEFT_BRACE {
        min(spec_scan_balanced(b, v, LEFT_BRACE, RIGHT_BRACE).0, end)
    } else {
        spec_word_end(b, v, end)
    }
}

/// The attribute scan of a tag from `st.i` up to `end`: each `key=value`
/// gets a hover on its key; a stray `/`, a key without `=` and a key
/// without a value get a diagnostic.
pub open spec fn spec_attrs_from(b: Seq<u8>, end: int, st: AttrState) -> AttrState
    decreases b.len() - st.i,
{
    if st.i < 0 || st.i >= end || end > b.len() {
        st
    } else {
        let i = spec_skip_ws_until(b, st.i, end);
        proof {
            lemma_skip_ws_until_bounds(b, st.i, end);
        }
        if i >= end {
            AttrState { i, diags: st.diags, hovers: st.hovers }
        } else if b[i] == SLASH {
            spec_attrs_from(
                b,
                end,
                AttrState {
                    i: i + 1,
                    diags: st.diags.push(note(i, min(i + 1, end), SELF_CLOSING.spec_bytes())),
                    hovers: st.hovers,
                },
            )
        } else {
            let ke = spec_attr_key_end(b, i, end);
            proof {
                lemma_attr_key_end_bounds(b, i, end);
                lemma_skip_ws_until_bounds(b, ke, end);
            }
            if ke == i {
                spec_attrs_from(b, end, AttrState { i: i + 1, diags: st.diags, hovers: st.hovers })
            } else {
                let j = spec_skip_ws_until(b, ke, end);
                if j >= end || b[j] != EQUALS {
                    spec_attrs_from(
                        b,
                        end,
                        AttrState {
                            i: j,
                            diags: st.diags.push(note(i, ke, MISSING_EQUALS.spec_bytes())),
                            hovers: st.hovers,
                        },
                    )
                } else {
                    let v = spec_skip_ws_until(b, j + 1, end);
                    proof {
                        lemma_skip_ws_until_bounds(b, j + 1, end);
                    }
                    if v >= end || b[v] == SLASH {
                        spec_attrs_from(
                            b,
                            end,
                            AttrState {
                                i: v,
                                diags: st.diags.push(note(i, v, MISSING_VALUE.spec_bytes())),
                                hovers: st.hovers,
                            },
                        )
                    } else {
                        proof {
                            lemma_scan_string_from_bounds(b, b[v], v + 1);
                            lemma_word_end_bounds(b, v, end);
                        }
                        spec_attrs_from(
                            b,
                            end,
                            AttrState {
                                i: max(spec_value_end(b, v, end), v + 1),
                                diags: st.diags,
                                hovers: st.hovers.push(note(i, ke, ATTRIBUTE_HOVER.spec_bytes())),
                            },
                        )
                    }
                }
            }
        }
    }
}

/// Scans the attributes of a tag, `b[start..end]`, appending diagnostics
/// and (when `want_hovers`) hovers; `spec_hovers` is what the hovers stand
/// for when they are not collected.
fn parse_attributes(
    b: &[u8],
    start: usize,
    end: usize,
    diags: &mut Vec<Note>,
    hovers: &mut Vec<Note>,
    want_hovers: bool,
    Ghost(spec_hovers): Ghost<Seq<SpecNote>>,
)
    requires
        start <= end <= b@.len(),
        want_hovers ==> notes_view(old(hovers)@) == spec_hovers,
    ensures
        notes_view(final(diags)@) == spec_attrs_from(
            b@,
            end as int,
            AttrState { i: start as int, diags: notes_view(old(diags)@), hovers: spec_hovers },
        ).diags,
        want_hovers ==> notes_view(final(hovers)@) == spec_attrs_from(
            b@,
            end as int,
            AttrState { i: start as int, diags: notes_view(old(diags)@), hovers: spec_hovers },
        ).hovers,
{
    let ghost target = spec_attrs_from(
        b@,
        end as int,
        AttrState { i: start as int, diags: notes_view(diags@), hovers: spec_hovers },
    );
    let ghost mut sh = spec_hovers;
    let mut i = start;
    while i < end
        invariant
            end <= b@.len(),
            i <= b@.len(),
            want_hovers ==> notes_view(hovers@) == sh,
            spec_attrs_from(
                b@,
                end as int,
                AttrState { i: i as int, diags: notes_view(diags@), hovers: sh },
            ) == target,
        decreases b@.len() - i,
    {
        i = skip_ws_until(b, i, end);
        if i >= end {
            continue ;
        }
        if b[i] == SLASH {
            let close = if i + 1 < end {
                i + 1
            } else {
                end
            };
            push_note(diags, ByteRange::new(i, close), msg(SELF_CLOSING));
            i = i + 1;
            continue ;
        }
        let key_start = i;
        i = attr_key_end(b, i, end);
        proof {
            lemma_attr_key_end_bounds(b@, key_start as int, end as int);
        }
        if key_start == i {
            i = i + 1;
            continue ;
        }
        let key_range = ByteRange::new(key_start, i);
        i = skip_ws_until(b, i, end);
        if i >= end || b[i] != EQUALS {
            push_note(diags, key_range, msg(MISSING_EQUALS));
            continue ;
        }
        i = skip_ws_until(b, i + 1, end);
        if i >= end || b[i] == SLASH {
            push_note(diags, ByteRange::new(key_range.start, i), msg(MISSING_VALUE));
            continue ;
        }
        let value_start = i;
        let value_end = if b[i] == DOUBLE_QUOTE || b[i] == SINGLE_QUOTE {
            match scan_string(b, i) {
                Some(x) => x,
                None => end,
            }
        } else if b[i] == LEFT_BRACE {
            let (e, _) = scan_balanced(b, i, LEFT_BRACE, RIGHT_BRACE);
            if e < end {
                e
            } else {
                end
            }
        } else {
            word_end(b, i, end)
        };
        proof {
            lemma_scan_string_from_bounds(b@, b@[value_start as int], value_start + 1);
            lemma_word_end_bounds(b@, value_start as int, end as int);
        }
        i = if value_end > value_start + 1 {
            value_end
        } else {
            value_start + 1
        };
        proof {
            sh = sh.push(note(key_range.start as int, key_range.end as int, ATTRIBUTE_HOVER.spec_bytes()));
        }
        if want_hovers {
            push_note(hovers, key_range, msg(ATTRIBUTE_HOVER));
        }
    }
}


/// The open tags of a `render!` body: each name with the span of the name.
pub open spec fn stack_view(s: Seq<(Vec<u8>, ByteRange)>) -> Seq<(Seq<u8>, ByteRange)> {
    s.map_values(|e: (Vec<u8>, ByteRange)| (e.0@, e.1))
}

/// Progress of the scan of a `render!` body.
pub ghost struct RenderState {
    pub i: int,
    pub stack: Seq<(Seq<u8>, ByteRange)>,
    pub diags: Seq<SpecNote>,
    pub hovers: Seq<SpecNote>,
}

/// A closing tag `</name>` at `st.i`.
pub open spec fn spec_close_step(b: Seq<u8>, end: int, st: RenderState) -> RenderState {
    let i = st.i;
    let ns = i + 2;
    let ne = spec_tag_name_end(b, ns, end);
    let name = b.subrange(ns, ne);
    let j = spec_skip_ws_until(b, ne, end);
    if j >= end || b[j] != GREATER_THAN {
        RenderState {
            i: j,
            stack: st.stack,
            diags: st.diags.push(note(i, min(j, end), MISSING_CLOSING_GT.spec_bytes())),
            hovers: st.hovers,
        }
    } else if st.stack.len() > 0 {
        let open = st.stack.last().0;
        if open == name {
            RenderState {
                i: j + 1,
                stack: st.stack.drop_last(),
                diags: st.diags,
                hovers: st.hovers.push(
                    note(ns, ne, ELEMENT_PREFIX.spec_bytes() + name + MATCHED_SUFFIX.spec_bytes()),
                ),
            }
        } else {
            RenderState {
                i: j + 1,
                stack: st.stack,
                diags: st.diags.push(
                    note(ns, ne, MISMATCH_PREFIX.spec_bytes() + open + MISMATCH_SUFFIX.spec_bytes()),
                ),
                hovers: st.hovers.push(
                    note(
                        ns,
                        ne,
                        ELEMENT_PREFIX.spec_bytes() + name + MISMATCH_HOVER_MIDDLE.spec_bytes() + open
                            + MISMATCH_HOVER_SUFFIX.spec_bytes(),
                    ),
                ),
            }
        }
    } else {
        RenderState {
            i: j + 1,
            stack: st.stack,
            diags: st.diags.push(note(ns, ne, UNEXPECTED_CLOSING.spec_bytes())),
            hovers: st.hovers.push(
                note(ns, ne, ELEMENT_PREFIX.spec_bytes() + name + NO_OPENING_SUFFIX.spec_bytes()),
            ),
        }
    }
}

/// An opening tag `<name attrs>` at `st.i`.
pub open spec fn spec_open_step(b: Seq<u8>, end: int, st: RenderState) -> RenderState {
    let i = st.i;
    let ns = i + 1;
    let ne = spec_tag_name_end(b, ns, end);
    if ne == ns {
        RenderState {
            i: ne,
            stack: st.stack,
            diags: st.diags.push(note(i, min(i + 1, end), MISSING_TAG_NAME.spec_bytes())),
            hovers: st.hovers,
        }
    } else {
        let name = b.subrange(ns, ne);
        let te = match spec_find_tag_end(b, ne, end) {
            Some(p) => p,
            None => end,
        };
        let a = spec_attrs_from(b, te, AttrState { i: ne, diags: st.diags, hovers: st.hovers });
        let bad = te >= end || b[te] != GREATER_THAN;
        RenderState {
            i: if bad {
                te
            } else {
                te + 1
            },
            stack: st.stack.push((name, ByteRange { start: ns as usize, end: ne as usize })),
            diags: if bad {
                a.diags.push(note(i, te, MISSING_OPENING_GT.spec_bytes()))
            } else {
                a.diags
            },
            hovers: a.hovers.push(
                note(ns, ne, ELEMENT_PREFIX.spec_bytes() + name + ELEMENT_SUFFIX.spec_bytes()),
            ),
        }
    }
}

/// A braced Rust expression at `st.i`.
pub open spec fn spec_brace_step(b: Seq<u8>, end: int, st: RenderState) -> RenderState {
    let i = st.i;
    let (ee, closed) = spec_scan_balanced(b, i, LEFT_BRACE, RIGHT_BRACE);
    let ce = min(ee, end);
    if !closed || ee > end {
        RenderState {
            i: max(ce, i + 1),
            stack: st.stack,
            diags: st.diags.push(note(i, ce, UNBALANCED_EXPRESSION.spec_bytes())),
            hovers: st.hovers,
        }
    } else {
        RenderState {
            i: ee,
            stack: st.stack,
            diags: st.diags,
            hovers: st.hovers.push(note(i, ee, EXPRESSION_HOVER.spec_bytes())),
        }
    }
}

/// One step of the scan of a `render!` body at `st.i`.
pub open spec fn spec_render_step(b: Seq<u8>, end: int, st: RenderState) -> RenderState {
    let i = st.i;
    if b[i] == LESS_THAN {
        if i + 1 < b.len() && b[i + 1] == SLASH {
            spec_close_step(b, end, st)
        } else {
            spec_open_step(b, end, st)
        }
    } else if b[i] == LEFT_BRACE {
        spec_brace_step(b, end, st)
    } else {
        match spec_skip_trivia(b, i) {
            Some(next) => RenderState { i: min(next, end), ..st },
            None => RenderState { i: i + 1, ..st },
        }
    }
}

pub proof fn lemma_render_step_progress(b: Seq<u8>, end: int, st: RenderState)
    requires
        0 <= st.i < end <= b.len(),
    ensures
        st.i < spec_render_step(b, end, st).i <= b.len(),
{
    let i = st.i;
    lemma_tag_name_end_bounds(b, i + 2, end);
    lemma_tag_name_end_bounds(b, i + 1, end);
    lemma_skip_ws_until_bounds(b, spec_tag_name_end(b, i + 2, end), end);
    lemma_find_tag_end_bounds(b, spec_tag_name_end(b, i + 1, end), end);
    lemma_scan_balanced_from_bounds(b, i, 0, LEFT_BRACE, RIGHT_BRACE);
    lemma_skip_trivia_bounds(b, i);
}

/// The scan of a `render!` body from `st.i` up to `end`.
pub open spec fn spec_render_from(b: Seq<u8>, end: int, st: RenderState) -> RenderState
    decreases b.len() - st.i,
{
    if st.i < 0 || st.i >= end || end > b.len() {
        st
    } else {
        proof {
            lemma_render_step_progress(b, end, st);
        }
        spec_render_from(b, end, spec_render_step(b, end, st))
    }
}

/// The diagnostics for tags left open at the end of the body.
pub open spec fn spec_unmatched(stack: Seq<(Seq<u8>, ByteRange)>) -> Seq<SpecNote> {
    stack.map_values(
        |e: (Seq<u8>, ByteRange)|
            SpecNote {
                range: e.1,
                message: MISSING_CLOSING_TAG_PREFIX.spec_bytes() + e.0 + MISMATCH_SUFFIX.spec_bytes(),
            },
    )
}

/// The diagnostics and hovers of one `render!` invocation.
pub open spec fn spec_render(b: Seq<u8>, inv: MacroInvocation) -> (Seq<SpecNote>, Seq<SpecNote>) {
    let d0 = if !inv.closed {
        seq![
            note(
                if inv.whole.end > 0 {
                    inv.whole.end - 1
                } else {
                    0
                },
                inv.whole.end as int,
                UNCLOSED_RENDER.spec_bytes(),
            ),
        ]
    } else {
        seq![]
    };
    let st = spec_render_from(
        b,
        inv.body.end as int,
        RenderState { i: inv.body.start as int, stack: seq![], diags: d0, hovers: seq![] },
    );
    (st.diags + spec_unmatched(st.stack), st.hovers)
}

/// How the executable state of the scan stands for a [`RenderState`].
pub open spec fn render_rel(
    st: RenderState,
    i: usize,
    stack: Seq<(Vec<u8>, ByteRange)>,
    diags: Seq<Note>,
    hovers: Seq<Note>,
    want: bool,
) -> bool {
    &&& st.i == i as int
    &&& stack_view(stack) == st.stack
    &&& notes_view(diags) == st.diags
    &&& want ==> notes_view(hovers) == st.hovers
}

fn render_close(
    b: &[u8],
    end: usize,
    i: usize,
    stack: &mut Vec<(Vec<u8>, ByteRange)>,
    diags: &mut Vec<Note>,
    hovers: &mut Vec<Note>,
    want: bool,
    Ghost(st): Ghost<RenderState>,
) -> (r: usize)
    requires
        i < end <= b@.len(),
        i + 1 < b@.len(),
        b@[i as int] == LESS_THAN,
        b@[i + 1] == SLASH,
        render_rel(st, i, old(stack)@, old(diags)@, old(hovers)@, want),
    ensures
        render_rel(
            spec_render_step(b@, end as int, st),
            r,
            final(stack)@,
            final(diags)@,
            final(hovers)@,
            want,
        ),
{
    let blen = b.len();
    let ns = i + 2;
    let ne = tag_name_end(b, ns, end);
    proof {
        lemma_tag_name_end_bounds(b@, ns as int, end as int);
    }
    let j = skip_ws_until(b, ne, end);
    if j >= end || b[j] != GREATER_THAN {
        let close = if j < end {
            j
        } else {
            end
        };
        push_note(diags, ByteRange::new(i, close), msg(MISSING_CLOSING_GT));
        return j;
    }
    let name_range = ByteRange::new(ns, ne);
    let n = stack.len();
    if n > 0 {
        let same = range_eq_bytes(b, ns, ne, stack[n - 1].0.as_slice());
        proof {
            assert(stack_view(stack@).last() == (stack@[n - 1].0@, stack@[n - 1].1));
        }
        if same {
            let _ = stack.pop();
            proof {
                assert(stack_view(stack@) =~= stack_view(old(stack)@).drop_last());
            }
            if want {
                push_note(hovers, name_range, msg_with(ELEMENT_PREFIX, b, ns, ne, MATCHED_SUFFIX));
            }
        } else {
            let open = stack[n - 1].0.as_slice();
            let name = vstd::slice::slice_subrange(b, ns, ne);
            assert(open@.subrange(0, open@.len() as int) =~= open@);
            push_note(diags, name_range, msg_with(MISMATCH_PREFIX, open, 0, open.len(), MISMATCH_SUFFIX));
            if want {
                push_note(
                    hovers,
                    name_range,
                    msg_with2(ELEMENT_PREFIX, name, MISMATCH_HOVER_MIDDLE, open, MISMATCH_HOVER_SUFFIX),
                );
            }
        }
    } else {
        push_note(diags, name_range, msg(UNEXPECTED_CLOSING));
        if want {
            push_note(hovers, name_range, msg_with(ELEMENT_PREFIX, b, ns, ne, NO_OPENING_SUFFIX));
        }
    }
    j + 1
}


fn render_open(
    b: &[u8],
    end: usize,
    i: usize,
    stack: &mut Vec<(Vec<u8>, ByteRange)>,
    diags: &mut Vec<Note>,
    hovers: &mut Vec<Note>,
    want: bool,
    Ghost(st): Ghost<RenderState>,
) -> (r: usize)
    requires
        i < end <= b@.len(),
        b@[i as int] == LESS_THAN,
        !(i + 1 < b@.len() && b@[i + 1] == SLASH),
        render_rel(st, i, old(stack)@, old(diags)@, old(hovers)@, want),
    ensures
        render_rel(
            spec_render_step(b@, end as int, st),
            r,
            final(stack)@,
            final(diags)@,
            final(hovers)@,
            want,
        ),
{
    let ns = i + 1;
    let ne = tag_name_end(b, ns, end);
    proof {
        lemma_tag_name_end_bounds(b@, ns as int, end as int);
    }
    if ne == ns {
        let close = if i + 1 < end {
            i + 1
        } else {
            end
        };
        push_note(diags, ByteRange::new(i, close), msg(MISSING_TAG_NAME));
        return ne;
    }
    let name_range = ByteRange::new(ns, ne);
    let tag_end = match find_tag_end(b, ne, end) {
        Some(p) => p,
        None => end,
    };
    parse_attributes(b, ne, tag_end, diags, hovers, want, Ghost(st.hovers));
    let next = if tag_end >= end || b[tag_end] != GREATER_THAN {
        push_note(diags, ByteRange::new(i, tag_end), msg(MISSING_OPENING_GT));
        tag_end
    } else {
        tag_end + 1
    };
    let name = vstd::slice::slice_to_vec(vstd::slice::slice_subrange(b, ns, ne));
    let ghost old_stack = stack@;
    stack.push((name, name_range));
    proof {
        assert(stack_view(stack@) =~= stack_view(old_stack).push(
            (b@.subrange(ns as int, ne as int), name_range),
        ));
    }
    if want {
        push_note(hovers, name_range, msg_with(ELEMENT_PREFIX, b, ns, ne, ELEMENT_SUFFIX));
    }
    next
}

fn render_brace(
    b: &[u8],
    end: usize,
    i: usize,
    diags: &mut Vec<Note>,
    hovers: &mut Vec<Note>,
    want: bool,
    Ghost(st): Ghost<RenderState>,
) -> (r: usize)
    requires
        i < end <= b@.len(),
        b@[i as int] == LEFT_BRACE,
        st.i == i,
        notes_view(old(diags)@) == st.diags,
        want ==> notes_view(old(hovers)@) == st.hovers,
    ensures
        spec_render_step(b@, end as int, st).i == r,
        notes_view(final(diags)@) == spec_render_step(b@, end as int, st).diags,
        want ==> notes_view(final(hovers)@) == spec_render_step(b@, end as int, st).hovers,
        spec_render_step(b@, end as int, st).stack == st.stack,
{
    let (expr_end, closed) = scan_balanced(b, i, LEFT_BRACE, RIGHT_BRACE);
    let clamped_end = if expr_end < end {
        expr_end
    } else {
        end
    };
    if !closed || expr_end > end {
        push_note(diags, ByteRange::new(i, clamped_end), msg(UNBALANCED_EXPRESSION));
        if clamped_end > i + 1 {
            clamped_end
        } else {
            i + 1
        }
    } else {
        if want {
            push_note(hovers, ByteRange::new(i, expr_end), msg(EXPRESSION_HOVER));
        }
        expr_end
    }
}

/// Appends the diagnostics of one `render!` invocation to `diags` and,
/// when `want_hovers`, its hovers to `hovers`: tags that do not match or
/// do not close, malformed attributes, unbalanced braced expressions, and
/// an unclosed macro delimiter.
pub fn diagnose_render(
    b: &[u8],
    invocation: &MacroInvocation,
    diags: &mut Vec<Note>,
    hovers: &mut Vec<Note>,
    want_hovers: bool,
)
    requires
        invocation.body.start <= invocation.body.end <= b@.len(),
    ensures
        notes_view(final(diags)@) == notes_view(old(diags)@) + spec_render(b@, *invocation).0,
        want_hovers ==> notes_view(final(hovers)@) == notes_view(old(hovers)@) + spec_render(
            b@,
            *invocation,
        ).1,
{
    let end = invocation.body.end;
    let mut local_diags: Vec<Note> = Vec::new();
    let mut local_hovers: Vec<Note> = Vec::new();
    if !invocation.closed {
        let whole_end = invocation.whole.end;
        let start = if whole_end > 0 {
            whole_end - 1
        } else {
            0
        };
        push_note(&mut local_diags, ByteRange::new(start, whole_end), msg(UNCLOSED_RENDER));
    }
    let mut stack: Vec<(Vec<u8>, ByteRange)> = Vec::new();
    let mut i = invocation.body.start;
    let ghost mut st = RenderState {
        i: i as int,
        stack: seq![],
        diags: notes_view(local_diags@),
        hovers: seq![],
    };
    let ghost target = spec_render_from(b@, end as int, st);
    proof {
        assert(stack_view(stack@) =~= seq![]);
        assert(notes_view(local_hovers@) =~= seq![]);
    }
    while i < end
        invariant
            end <= b@.len(),
            i <= b@.len(),
            end == invocation.body.end,
            render_rel(st, i, stack@, local_diags@, local_hovers@, want_hovers),
            spec_render_from(b@, end as int, st) == target,
        decreases b@.len() - i,
    {
        let ghost prev = st;
        proof {
            lemma_render_step_progress(b@, end as int, prev);
            st = spec_render_step(b@, end as int, prev);
        }
        if b[i] == LESS_THAN {
            if b.len() - i > 1 && b[i + 1] == SLASH {
                i = render_close(
                    b,
                    end,
                    i,
                    &mut stack,
                    &mut local_diags,
                    &mut local_hovers,
                    want_hovers,
                    Ghost(prev),
                );
            } else {
                i = render_open(
                    b,
                    end,
                    i,
                    &mut stack,
                    &mut local_diags,
                    &mut local_hovers,
                    want_hovers,
                    Ghost(prev),
                );
            }
        } else if b[i] == LEFT_BRACE {
            i = render_brace(
                b,
                end,
                i,
                &mut local_diags,
                &mut local_hovers,
                want_hovers,
                Ghost(prev),
            );
        } else {
            match skip_rust_trivia(b, i) {
                Some(next) => {
                    i = if next < end {
                        next
                    } else {
                        end
                    };
                },
                None => {
                    i = i + 1;
                },
            }
        }
    }
    let mut k: usize = 0;
    let ghost base = notes_view(local_diags@);
    while k < stack.len()
        invariant
            k <= stack@.len(),
            notes_view(local_diags@) == base + spec_unmatched(stack_view(stack@)).take(k as int),
        decreases stack@.len() - k,
    {
        let entry = &stack[k];
        let m = msg_with(MISSING_CLOSING_TAG_PREFIX, entry.0.as_slice(), 0, entry.0.len(), MISMATCH_SUFFIX);
        proof {
            assert(entry.0@.subrange(0, entry.0@.len() as int) =~= entry.0@);
            assert(spec_unmatched(stack_view(stack@)).take(k + 1) =~= spec_unmatched(
                stack_view(stack@),
            ).take(k as int).push(spec_unmatched(stack_view(stack@))[k as int]));
        }
        push_note(&mut local_diags, entry.1, m);
        k = k + 1;
    }
    proof {
        assert(spec_unmatched(stack_view(stack@)).take(stack@.len() as int) =~= spec_unmatched(
            stack_view(stack@),
        ));
        assert(notes_view(diags@ + local_diags@) =~= notes_view(diags@) + notes_view(local_diags@));
        assert(notes_view(hovers@ + local_hovers@) =~= notes_view(hovers@) + notes_view(
            local_hovers@,
        ));
    }
    diags.append(&mut local_diags);
    if want_hovers {
        hovers.append(&mut local_hovers);
    }
}

/// Tag-name bytes are ASCII.
proof fn lemma_tag_name_ascii(b: Seq<u8>, i: int, end: int)
    ensures
        forall|k: int| i <= k < spec_tag_name_end(b, i, end) ==> #[trigger] b[k] < 0x80,
        0 <= i <= b.len() ==> spec_tag_name_end(b, i, end) <= b.len(),
    decreases end - i,
{
    if 0 <= i < end && i < b.len() && spec_is_tag_name_continue(b[i]) {
        lemma_tag_name_ascii(b, i + 1, end);
    }
}

/// A tag name is text.
proof fn lemma_tag_name_valid(b: Seq<u8>, ns: int, end: int)
    requires
        0 <= ns <= b.len(),
    ensures
        ns <= spec_tag_name_end(b, ns, end) <= b.len(),
        valid_utf8(b.subrange(ns, spec_tag_name_end(b, ns, end))),
{
    lemma_tag_name_ascii(b, ns, end);
    lemma_tag_name_end_bounds(b, ns, end);
    let name = b.subrange(ns, spec_tag_name_end(b, ns, end));
    assert forall|k: int| 0 <= k < name.len() implies #[trigger] name[k] < 0x80 by {
        assert(name[k] == b[ns + k]);
    }
    lemma_ascii_valid(name);
}

/// Every message of the attribute scan is text.
proof fn lemma_attrs_text(b: Seq<u8>, end: int, st: AttrState)
    requires
        notes_text(st.diags),
        notes_text(st.hovers),
    ensures
        notes_text(spec_attrs_from(b, end, st).diags),
        notes_text(spec_attrs_from(b, end, st).hovers),
    decreases b.len() - st.i,
{
    if !(st.i < 0 || st.i >= end || end > b.len()) {
        let i = spec_skip_ws_until(b, st.i, end);
        lemma_skip_ws_until_bounds(b, st.i, end);
        if i < end {
            if b[i] == SLASH {
                lemma_encoded_valid(SELF_CLOSING@);
                let d = st.diags.push(note(i, min(i + 1, end), SELF_CLOSING.spec_bytes()));
                lemma_attrs_text(b, end, AttrState { i: i + 1, diags: d, hovers: st.hovers });
            } else {
                let ke = spec_attr_key_end(b, i, end);
                lemma_attr_key_end_bounds(b, i, end);
                lemma_skip_ws_until_bounds(b, ke, end);
                if ke == i {
                    lemma_attrs_text(b, end, AttrState { i: i + 1, diags: st.diags, hovers: st.hovers });
                } else {
                    let j = spec_skip_ws_until(b, ke, end);
                    if j >= end || b[j] != EQUALS {
                        lemma_encoded_valid(MISSING_EQUALS@);
                        let d = st.diags.push(note(i, ke, MISSING_EQUALS.spec_bytes()));
                        lemma_attrs_text(b, end, AttrState { i: j, diags: d, hovers: st.hovers });
                    } else {
                        let v = spec_skip_ws_until(b, j + 1, end);
                        lemma_skip_ws_until_bounds(b, j + 1, end);
                        if v >= end || b[v] == SLASH {
                            lemma_encoded_valid(MISSING_VALUE@);
                            let d = st.diags.push(note(i, v, MISSING_VALUE.spec_bytes()));
                            lemma_attrs_text(b, end, AttrState { i: v, diags: d, hovers: st.hovers });
                        } else {
                            lemma_scan_string_from_bounds(b, b[v], v + 1);
                            lemma_word_end_bounds(b, v, end);
                            lemma_encoded_valid(ATTRIBUTE_HOVER@);
                            let h = st.hovers.push(note(i, ke, ATTRIBUTE_HOVER.spec_bytes()));
                            lemma_attrs_text(
                                b,
                                end,
                                AttrState {
                                    i: max(spec_value_end(b, v, end), v + 1),
                                    diags: st.diags,
                                    hovers: h,
                                },
                            );
                        }
                    }
                }
            }
        }
    }
}

/// Every message, and every open tag's name, of a scan state is text.
pub open spec fn render_text(st: RenderState) -> bool {
    &&& notes_text(st.diags)
    &&& notes_text(st.hovers)
    &&& forall|k: int| 0 <= k < st.stack.len() ==> valid_utf8(#[trigger] st.stack[k].0)
}

proof fn lemma_close_step_text(b: Seq<u8>, end: int, st: RenderState)
    requires
        0 <= st.i < end <= b.len(),
        st.i + 1 < b.len(),
        render_text(st),
    ensures
        render_text(spec_close_step(b, end, st)),
{
    let i = st.i;
    let ns = i + 2;
    lemma_tag_name_valid(b, ns, end);
    let ne = spec_tag_name_end(b, ns, end);
    let name = b.subrange(ns, ne);
    let r = spec_close_step(b, end, st);
    lemma_encoded_valid(MISSING_CLOSING_GT@);
    lemma_encoded_valid(UNEXPECTED_CLOSING@);
    lemma_wrap_valid(ELEMENT_PREFIX@, name, MATCHED_SUFFIX@);
    lemma_wrap_valid(ELEMENT_PREFIX@, name, NO_OPENING_SUFFIX@);
    if st.stack.len() > 0 {
        let open = st.stack.last().0;
        assert(valid_utf8(open));
        lemma_wrap_valid(MISMATCH_PREFIX@, open, MISMATCH_SUFFIX@);
        lemma_wrap2_valid(ELEMENT_PREFIX@, name, MISMATCH_HOVER_MIDDLE@, open, MISMATCH_HOVER_SUFFIX@);
        assert forall|k: int| 0 <= k < st.stack.drop_last().len() implies valid_utf8(
            #[trigger] st.stack.drop_last()[k].0,
        ) by {
            assert(st.stack.drop_last()[k] == st.stack[k]);
        }
    }
}

proof fn lemma_open_step_text(b: Seq<u8>, end: int, st: RenderState)
    requires
        0 <= st.i < end <= b.len(),
        render_text(st),
    ensures
        render_text(spec_open_step(b, end, st)),
{
    let i = st.i;
    let ns = i + 1;
    lemma_tag_name_valid(b, ns, end);
    let ne = spec_tag_name_end(b, ns, end);
    lemma_encoded_valid(MISSING_TAG_NAME@);
    if ne != ns {
        let name = b.subrange(ns, ne);
        let te = match spec_find_tag_end(b, ne, end) {
            Some(p) => p,
            None => end,
        };
        lemma_attrs_text(b, te, AttrState { i: ne, diags: st.diags, hovers: st.hovers });
        lemma_encoded_valid(MISSING_OPENING_GT@);
        lemma_wrap_valid(ELEMENT_PREFIX@, name, ELEMENT_SUFFIX@);
        let stack = st.stack.push((name, ByteRange { start: ns as usize, end: ne as usize }));
        assert forall|k: int| 0 <= k < stack.len() implies valid_utf8(#[trigger] stack[k].0) by {
            if k < st.stack.len() {
                assert(stack[k] == st.stack[k]);
            }
        }
    }
}

proof fn lemma_render_step_text(b: Seq<u8>, end: int, st: RenderState)
    requires
        0 <= st.i < end <= b.len(),
        render_text(st),
    ensures
        render_text(spec_render_step(b, end, st)),
{
    let i = st.i;
    if b[i] == LESS_THAN {
        if i + 1 < b.len() && b[i + 1] == SLASH {
            lemma_close_step_text(b, end, st);
        } else {
            lemma_open_step_text(b, end, st);
        }
    } else if b[i] == LEFT_BRACE {
        lemma_encoded_valid(UNBALANCED_EXPRESSION@);
        lemma_encoded_valid(EXPRESSION_HOVER@);
    }
}

proof fn lemma_render_from_text(b: Seq<u8>, end: int, st: RenderState)
    requires
        render_text(st),
    ensures
        render_text(spec_render_from(b, end, st)),
    decreases b.len() - st.i,
{
    if !(st.i < 0 || st.i >= end || end > b.len()) {
        lemma_render_step_progress(b, end, st);
        lemma_render_step_text(b, end, st);
        lemma_render_from_text(b, end, spec_render_step(b, end, st));
    }
}

/// Every diagnostic and hover message of a `render!` invocation is text.
pub proof fn lemma_render_notes_text(b: Seq<u8>, inv: MacroInvocation)
    ensures
        notes_text(spec_render(b, inv).0),
        notes_text(spec_render(b, inv).1),
{
    lemma_encoded_valid(UNCLOSED_RENDER@);
    let d0 = if !inv.closed {
        seq![
            note(
                if inv.whole.end > 0 {
                    inv.whole.end - 1
                } else {
                    0
                },
                inv.whole.end as int,
                UNCLOSED_RENDER.spec_bytes(),
            ),
        ]
    } else {
        seq![]
    };
    let st0 = RenderState { i: inv.body.start as int, stack: seq![], diags: d0, hovers: seq![] };
    lemma_render_from_text(b, inv.body.end as int, st0);
    let st = spec_render_from(b, inv.body.end as int, st0);
    let u = spec_unmatched(st.stack);
    assert forall|k: int| 0 <= k < u.len() implies valid_utf8(#[trigger] u[k].message) by {
        lemma_wrap_valid(MISSING_CLOSING_TAG_PREFIX@, st.stack[k].0, MISMATCH_SUFFIX@);
    }
    let all = st.diags + u;
    assert forall|k: int| 0 <= k < all.len() implies valid_utf8(#[trigger] all[k].message) by {
        if k < st.diags.len() {
            assert(all[k] == st.diags[k]);
        } else {
            assert(all[k] == u[k - st.diags.len()]);
        }
    }
}

/// ASCII letters, digits and `_`, `-`, `:`: what a tag name is made of.
pub open spec fn is_tag_name_byte(c: u8) -> bool {
    ||| 0x61 <= c <= 0x7a
    ||| 0x41 <= c <= 0x5a
    ||| 0x30 <= c <= 0x39
    ||| c == 0x5f
    ||| c == 0x2d
    ||| c == 0x3a
}

/// Tag names run over letters, digits, `_`, `-` and `:` (custom elements
/// such as `my-card`, namespaced names such as `svg:path`) and stop at the
/// first other byte, or at the end of the scanned span.
pub proof fn law_tag_name_extent(b: Seq<u8>, i: int, j: int, end: int)
    requires
        0 <= i <= j <= end <= b.len(),
        forall|k: int| i <= k < j ==> is_tag_name_byte(#[trigger] b[k]),
        j < end ==> !is_tag_name_byte(b[j]),
    ensures
        spec_tag_name_end(b, i, end) == j,
    decreases j - i,
{
    if i < j {
        law_tag_name_extent(b, i + 1, j, end);
    }
}

/// Attribute keys run over letters, digits, `_`, `-`, `:` and `.` (such as
/// `aria-label`, `on:click` or `data.x`) and stop at the first other byte,
/// or at the end of the scanned span.
pub proof fn law_attribute_key_extent(b: Seq<u8>, i: int, j: int, end: int)
    requires
        0 <= i <= j <= end <= b.len(),
        forall|k: int| i <= k < j ==> is_tag_name_byte(#[trigger] b[k]) || b[k] == 0x2e,
        j < end ==> !(is_tag_name_byte(b[j]) || b[j] == 0x2e),
    ensures
        spec_attr_key_end(b, i, end) == j,
    decreases j - i,
{
    if i < j {
        law_attribute_key_extent(b, i + 1, j, end);
    }
}

/// An attribute `key="value"` (or `key='value'`) whose value is a quoted
/// string literal is stepped over as a whole, whatever the literal holds,
/// spaces included: the key gets its hover, no diagnostic is added, and the
/// scan goes on just past the closing quote.
pub proof fn law_quoted_value_skipped(b: Seq<u8>, end: int, st: AttrState, ke: int, q: int)
    requires
        0 <= st.i < ke,
        ke + 1 < q < end <= b.len(),
        forall|k: int| st.i <= k < ke ==> is_tag_name_byte(#[trigger] b[k]) || b[k] == 0x2e,
        b[ke] == EQUALS,
        b[ke + 1] == DOUBLE_QUOTE || b[ke + 1] == SINGLE_QUOTE,
        forall|k: int| ke + 1 < k < q ==> #[trigger] b[k] != b[ke + 1] && b[k] != BACKSLASH,
        b[q] == b[ke + 1],
    ensures
        spec_attrs_from(b, end, st) == spec_attrs_from(
            b,
            end,
            AttrState {
                i: q + 1,
                diags: st.diags,
                hovers: st.hovers.push(note(st.i, ke, ATTRIBUTE_HOVER.spec_bytes())),
            },
        ),
{
    let i = st.i;
    assert(spec_skip_ws_until(b, i, end) == i);
    law_attribute_key_extent(b, i, ke, end);
    assert(spec_skip_ws_until(b, ke, end) == ke);
    assert(spec_skip_ws_until(b, ke + 1, end) == ke + 1);
    lemma_scan_string_closes(b, b[ke + 1], ke + 2, q);
    assert(spec_value_end(b, ke + 1, end) == q + 1);
}

} // verus!
