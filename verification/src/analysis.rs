//! The editor-facing results: diagnostics for a whole text and the hover at
//! a position.

use vstd::prelude::*;
use vstd::string::StringSliceAdditionalSpecFns;
use vstd::utf8::{decode_utf8, valid_utf8};

use crate::bytes::{bytes_to_string, LEFT_BRACE, LEFT_BRACKET, LEFT_PAREN};
use crate::css::{diagnose_css, spec_css};
use crate::line_index::{
    spec_offset, spec_range, LineIndex, Position, Range, MAX_TEXT_LEN,
};
use crate::render::{diagnose_render, spec_render};
use crate::css::{lemma_css_diags_text, lemma_css_hovers_text};
use crate::text::{lemma_after_ascii, lemma_encoded_valid};
use crate::render::lemma_render_notes_text;
use crate::report::{
    lemma_notes_text_join, note_on_boundaries, note_within_chars, notes_on_boundaries, notes_text,
    notes_view, notes_within_chars, Note, SpecNote,
};
use crate::scan::{
    is_open_delimiter, lemma_ident_end_bounds, lemma_scan_balanced_from_bounds,
    lemma_skip_trivia_bounds, lemma_skip_ws_until_bounds, scan_macros_bytes, spec_ident_end,
    spec_macro_kind, spec_matching_close, spec_scan_balanced, spec_scan_balanced_from,
    spec_scan_macros, spec_scan_macros_from, spec_skip_trivia, spec_skip_ws_until, ByteRange,
    MacroInvocation, MacroKind,
};

verus! {

/// How serious a diagnostic is.
#[derive(Clone, Copy, Debug, PartialEq, Eq, Structural)]
pub enum DiagnosticSeverity {
    Error,
    Warning,
    Information,
    Hint,
}

/// A problem found in a text, at an editor range.
#[derive(Clone, Debug)]
pub struct Diagnostic {
    pub range: Range,
    pub severity: DiagnosticSeverity,
    pub source: String,
    pub message: String,
}

/// Hover text for an editor range.
#[derive(Clone, Debug)]
pub struct Hover {
    pub contents: String,
    pub range: Range,
}

/// The diagnostics of one text.
#[derive(Clone, Debug)]
pub struct Analysis {
    pub diagnostics: Vec<Diagnostic>,
}

pub const SOURCE: &'static str = "crustal-lsp";

/// The diagnostics and hovers of one invocation.
pub open spec fn spec_invocation_notes(b: Seq<u8>, inv: MacroInvocation) -> (
    Seq<SpecNote>,
    Seq<SpecNote>,
) {
    match inv.kind {
        MacroKind::Render => spec_render(b, inv),
        _ => spec_css(b, inv),
    }
}

/// The diagnostics of a list of invocations, in order.
pub open spec fn spec_diagnostic_notes(b: Seq<u8>, invs: Seq<MacroInvocation>) -> Seq<SpecNote>
    decreases invs.len(),
{
    if invs.len() == 0 {
        seq![]
    } else {
        spec_diagnostic_notes(b, invs.drop_last()) + spec_invocation_notes(b, invs.last()).0
    }
}

/// The diagnostics of a whole text: those of each macro invocation, in
/// text order.
pub open spec fn spec_analysis(b: Seq<u8>) -> Seq<SpecNote> {
    spec_diagnostic_notes(b, spec_scan_macros(b))
}

/// Whether `d` is the editor form of the finding `n` in text `b`.
pub open spec fn diagnostic_of(d: Diagnostic, b: Seq<u8>, n: SpecNote) -> bool {
    &&& d.range == spec_range(b, n.range)
    &&& d.severity == DiagnosticSeverity::Error
    &&& d.source@ == SOURCE@
    &&& d.message@ == decode_utf8(n.message)
}

/// Whether `ds` are the editor forms of `ns`, in order.
pub open spec fn diagnostics_of(ds: Seq<Diagnostic>, b: Seq<u8>, ns: Seq<SpecNote>) -> bool {
    &&& ds.len() == ns.len()
    &&& forall|k: int| 0 <= k < ds.len() ==> diagnostic_of(#[trigger] ds[k], b, ns[k])
}

/// The first invocation whose whole span holds `off`.
pub open spec fn first_containing(invs: Seq<MacroInvocation>, off: int) -> Option<MacroInvocation>
    decreases invs.len(),
{
    if invs.len() == 0 {
        None
    } else if invs[0].whole.spec_contains(off) {
        Some(invs[0])
    } else {
        first_containing(invs.skip(1), off)
    }
}

/// The first note whose span holds `off`.
pub open spec fn first_note_containing(notes: Seq<SpecNote>, off: int) -> Option<SpecNote>
    decreases notes.len(),
{
    if notes.len() == 0 {
        None
    } else if notes[0].range.spec_contains(off) {
        Some(notes[0])
    } else {
        first_note_containing(notes.skip(1), off)
    }
}

/// The hover at a position: the first hover of the first invocation that
/// holds the position's offset, among those whose span holds it.
pub open spec fn spec_hover_at(b: Seq<u8>, pos: Position) -> Option<SpecNote> {
    match spec_offset(b, pos) {
        None => None,
        Some(off) => match first_containing(spec_scan_macros(b), off) {
            None => None,
            Some(inv) => first_note_containing(spec_invocation_notes(b, inv).1, off),
        },
    }
}

/// The spans an invocation record holds are ordered and lie in the text.
pub open spec fn invocation_wf(b: Seq<u8>, inv: MacroInvocation) -> bool {
    &&& inv.whole.start == inv.name_range.start
    &&& inv.name_range.start < inv.name_range.end < inv.body.start
    &&& inv.body.start <= inv.body.end <= inv.whole.end <= b.len()
    &&& b[inv.body.start - 1] < 0x80
    &&& inv.body.end < b.len() ==> b[inv.body.end as int] < 0x80
}

proof fn lemma_balanced_closed_past_open(b: Seq<u8>, k: int, open: u8, close: u8)
    requires
        0 <= k < b.len(),
        b[k] == open,
        spec_skip_trivia(b, k) is None,
    ensures
        spec_scan_balanced(b, k, open, close).1 ==> spec_scan_balanced(b, k, open, close).0 >= k
            + 2,
        spec_scan_balanced(b, k, open, close).0 <= b.len(),
        spec_scan_balanced(b, k, open, close).0 > k,
{
    lemma_scan_balanced_from_bounds(b, k, 0, open, close);
    lemma_scan_balanced_from_bounds(b, k + 1, 1, open, close);
    assert(spec_scan_balanced(b, k, open, close) == spec_scan_balanced_from(
        b,
        k + 1,
        1,
        open,
        close,
    ));
}

/// Every invocation the scan finds from `i` on is well formed and lies at
/// or after `i`.
pub proof fn lemma_scan_macros_wf(b: Seq<u8>, i: int)
    requires
        0 <= i,
        b.len() <= usize::MAX,
    ensures
        forall|k: int|
            0 <= k < spec_scan_macros_from(b, i).len() ==> invocation_wf(
                b,
                #[trigger] spec_scan_macros_from(b, i)[k],
            ) && spec_scan_macros_from(b, i)[k].whole.start >= i,
        forall|k: int|
            0 <= k < spec_scan_macros_from(b, i).len() - 1 ==> spec_scan_macros_from(b, i)[k].whole.end
                <= #[trigger] spec_scan_macros_from(b, i)[k + 1].whole.start,
    decreases b.len() - i,
{
    if i < b.len() {
        lemma_skip_trivia_bounds(b, i);
        match spec_skip_trivia(b, i) {
            Some(next) => {
                lemma_scan_macros_wf(b, next);
            },
            None => {
                if !crate::bytes::spec_is_ident_start(b[i]) {
                    lemma_scan_macros_wf(b, i + 1);
                } else {
                    let e = spec_ident_end(b, i + 1);
                    lemma_ident_end_bounds(b, i + 1);
                    lemma_scan_macros_wf(b, e);
                    lemma_skip_ws_until_bounds(b, e, b.len() as int);
                    let j = spec_skip_ws_until(b, e, b.len() as int);
                    lemma_skip_ws_until_bounds(b, j + 1, b.len() as int);
                    let k = spec_skip_ws_until(b, j + 1, b.len() as int);
                    if spec_macro_kind(b, i, e) is Some && j < b.len() && b[j] == crate::bytes::BANG
                        && k < b.len() && is_open_delimiter(b[k]) {
                        lemma_balanced_closed_past_open(b, k, b[k], spec_matching_close(b[k]));
                        lemma_scan_balanced_from_bounds(b, k, 0, b[k], spec_matching_close(b[k]));
                        let end = spec_scan_balanced(b, k, b[k], spec_matching_close(b[k])).0;
                        let next = if end > k + 1 {
                            end
                        } else {
                            k + 1
                        };
                        lemma_scan_macros_wf(b, next);
                        let all = spec_scan_macros_from(b, i);
                        let rest = spec_scan_macros_from(b, next);
                        assert(all == seq![all[0]] + rest);
                        assert(invocation_wf(b, all[0]));
                        assert forall|m: int| 0 <= m < all.len() implies invocation_wf(
                            b,
                            #[trigger] all[m],
                        ) && all[m].whole.start >= i by {
                            if m > 0 {
                                assert(all[m] == rest[m - 1]);
                            }
                        }
                        assert forall|m: int| 0 <= m < all.len() - 1 implies all[m].whole.end
                            <= #[trigger] all[m + 1].whole.start by {
                            assert(all[m + 1] == rest[m]);
                            assert(invocation_wf(b, rest[m]) && rest[m].whole.start >= next);
                            if m > 0 {
                                assert(all[m] == rest[m - 1]);
                                assert(rest[(m - 1) + 1].whole.start >= rest[m - 1].whole.end);
                            }
                        }
                    }
                }
            },
        }
    }
}

fn to_diagnostic(li: &LineIndex, n: &Note) -> (d: Diagnostic)
    requires
        li.wf(),
        note_on_boundaries(li.text(), n@),
        valid_utf8(n.message@),
    ensures
        diagnostic_of(d, li.text(), n@),
{
    let message = bytes_to_string(vstd::slice::slice_to_vec(n.message.as_slice()));
    Diagnostic {
        range: li.range(n.range),
        severity: DiagnosticSeverity::Error,
        source: SOURCE.to_string(),
        message,
    }
}

/// The notes of one invocation: its diagnostics and, when `want_hovers`,
/// its hovers.
fn diagnose_invocation(
    b: &[u8],
    invocation: &MacroInvocation,
    diags: &mut Vec<Note>,
    hovers: &mut Vec<Note>,
    want_hovers: bool,
)
    requires
        invocation_wf(b@, *invocation),
        b@.len() <= MAX_TEXT_LEN,
    ensures
        notes_view(final(diags)@) == notes_view(old(diags)@) + spec_invocation_notes(
            b@,
            *invocation,
        ).0,
        want_hovers ==> notes_view(final(hovers)@) == notes_view(old(hovers)@)
            + spec_invocation_notes(b@, *invocation).1,
{
    match invocation.kind {
        MacroKind::Render => diagnose_render(b, invocation, diags, hovers, want_hovers),
        _ => diagnose_css(b, invocation, diags, hovers, want_hovers),
    }
}

/// Every diagnostic message is text.
pub proof fn lemma_diagnostic_notes_text(b: Seq<u8>, invs: Seq<MacroInvocation>)
    ensures
        notes_text(spec_diagnostic_notes(b, invs)),
    decreases invs.len(),
{
    if invs.len() > 0 {
        lemma_diagnostic_notes_text(b, invs.drop_last());
        let inv = invs.last();
        match inv.kind {
            MacroKind::Render => lemma_render_notes_text(b, inv),
            _ => lemma_css_diags_text(b, inv),
        }
        lemma_notes_text_join(
            spec_diagnostic_notes(b, invs.drop_last()),
            spec_invocation_notes(b, inv).0,
        );
    }
}

/// Whether every diagnostic of a text has its span's ends where the text
/// can be cut, so that each can be given an editor range.
pub open spec fn findings_on_char_boundaries(b: Seq<u8>) -> bool {
    notes_on_boundaries(b, spec_analysis(b))
}

/// The diagnostics of the first invocation that holds the offset of `pos`
/// (none when no invocation does): those worked out along with a hover.
pub open spec fn containing_diagnostics(b: Seq<u8>, pos: Position) -> Seq<SpecNote> {
    match spec_offset(b, pos) {
        None => seq![],
        Some(off) => match first_containing(spec_scan_macros(b), off) {
            None => seq![],
            Some(inv) => spec_invocation_notes(b, inv).0,
        },
    }
}

/// Whether the notes worked out for a hover at `pos`, and the hover
/// itself, have their spans' ends where the text can be cut.
pub open spec fn hover_on_char_boundaries(b: Seq<u8>, pos: Position) -> bool {
    &&& notes_on_boundaries(b, containing_diagnostics(b, pos))
    &&& spec_hover_at(b, pos) matches Some(n) ==> note_on_boundaries(b, n)
}

/// The diagnostic notes of a whole text.
fn analysis_notes(b: &[u8]) -> (r: Vec<Note>)
    requires
        b@.len() <= MAX_TEXT_LEN,
    ensures
        notes_view(r@) == spec_analysis(b@),
{
    let invocations = scan_macros_bytes(b);
    proof {
        lemma_scan_macros_wf(b@, 0);
    }
    let mut notes: Vec<Note> = Vec::new();
    let mut unused: Vec<Note> = Vec::new();
    let mut k: usize = 0;
    proof {
        assert(notes_view(notes@) =~= spec_diagnostic_notes(b@, invocations@.take(0)));
    }
    while k < invocations.len()
        invariant
            k <= invocations@.len(),
            b@.len() <= MAX_TEXT_LEN,
            invocations@ == spec_scan_macros(b@),
            forall|m: int|
                0 <= m < invocations@.len() ==> invocation_wf(b@, #[trigger] invocations@[m]),
            notes_view(notes@) == spec_diagnostic_notes(b@, invocations@.take(k as int)),
        decreases invocations@.len() - k,
    {
        diagnose_invocation(b, &invocations[k], &mut notes, &mut unused, false);
        proof {
            assert(invocations@.take(k + 1).drop_last() =~= invocations@.take(k as int));
            assert(invocations@.take(k + 1).last() == invocations@[k as int]);
        }
        k = k + 1;
    }
    proof {
        assert(invocations@.take(invocations@.len() as int) =~= invocations@);
    }
    notes
}

/// The diagnostics of a source text: for each `render!`, `css!` and
/// `global_css!` invocation, in text order, the problems its body has.
/// Each diagnostic's span must have its ends where the text can be cut
/// (see [`analyzable`]).
pub fn analyze(text: &str) -> (r: Analysis)
    requires
        text.spec_bytes().len() <= MAX_TEXT_LEN,
        findings_on_char_boundaries(text.spec_bytes()),
    ensures
        diagnostics_of(r.diagnostics@, text.spec_bytes(), spec_analysis(text.spec_bytes())),
{
    let b = text.as_bytes();
    let li = LineIndex::from_bytes(b);
    let notes = analysis_notes(b);
    proof {
        lemma_diagnostic_notes_text(b@, spec_scan_macros(b@));
    }
    let mut diagnostics: Vec<Diagnostic> = Vec::new();
    let mut m: usize = 0;
    while m < notes.len()
        invariant
            m <= notes@.len(),
            li.wf(),
            li.text() == b@,
            notes_view(notes@) == spec_analysis(b@),
            notes_on_boundaries(b@, spec_analysis(b@)),
            notes_text(spec_analysis(b@)),
            diagnostics@.len() == m,
            forall|q: int|
                0 <= q < m ==> diagnostic_of(#[trigger] diagnostics@[q], b@, notes@[q]@),
        decreases notes@.len() - m,
    {
        assert(notes_view(notes@)[m as int] == notes@[m as int]@);
        assert(valid_utf8(spec_analysis(b@)[m as int].message));
        let d = to_diagnostic(&li, &notes[m]);
        diagnostics.push(d);
        m = m + 1;
    }
    proof {
        assert forall|q: int| 0 <= q < diagnostics@.len() implies diagnostic_of(
            #[trigger] diagnostics@[q],
            b@,
            spec_analysis(b@)[q],
        ) by {
            assert(notes_view(notes@)[q] == notes@[q]@);
        }
    }
    Analysis { diagnostics }
}

/// Whether [`analyze`] can give every diagnostic of the text an editor
/// range: no diagnostic span ends inside a character.
pub fn analyzable(text: &str) -> (r: bool)
    requires
        text.spec_bytes().len() <= MAX_TEXT_LEN,
    ensures
        r == findings_on_char_boundaries(text.spec_bytes()),
{
    let b = text.as_bytes();
    let notes = analysis_notes(b);
    notes_within_chars(b, &notes)
}

/// Whether `h` is the editor form of the hover note `n` in text `b`.
pub open spec fn hover_of(h: Hover, b: Seq<u8>, n: SpecNote) -> bool {
    &&& h.range == spec_range(b, n.range)
    &&& h.contents@ == decode_utf8(n.message)
}

/// The hover note at a position, and whether the notes worked out for it
/// have their spans' ends where the text can be cut.
fn find_hover(b: &[u8], li: &LineIndex, position: Position) -> (r: (Option<Note>, bool))
    requires
        b@.len() <= MAX_TEXT_LEN,
        li.wf(),
        li.text() == b@,
    ensures
        match r.0 {
            None => spec_hover_at(b@, position) is None,
            Some(n) => spec_hover_at(b@, position) == Some(n@),
        },
        r.1 == hover_on_char_boundaries(b@, position),
{
    let offset = match li.offset(position) {
        Some(o) => o,
        None => {
            return (None, true);
        },
    };
    let invocations = scan_macros_bytes(b);
    proof {
        lemma_scan_macros_wf(b@, 0);
    }
    let mut k: usize = 0;
    assert(invocations@.skip(0) =~= invocations@);
    while k < invocations.len()
        invariant
            k <= invocations@.len(),
            b@.len() <= MAX_TEXT_LEN,
            invocations@ == spec_scan_macros(b@),
            spec_offset(b@, position) == Some(offset as int),
            forall|m: int|
                0 <= m < invocations@.len() ==> invocation_wf(b@, #[trigger] invocations@[m]),
            first_containing(invocations@.skip(k as int), offset as int) == first_containing(
                invocations@,
                offset as int,
            ),
        decreases invocations@.len() - k,
    {
        let ghost rest = invocations@.skip(k as int);
        proof {
            assert(rest[0] == invocations@[k as int]);
            assert(rest.skip(1) =~= invocations@.skip(k + 1));
        }
        if !invocations[k].whole.contains(offset) {
            k = k + 1;
            continue ;
        }
        let mut diags: Vec<Note> = Vec::new();
        let mut hovers: Vec<Note> = Vec::new();
        diagnose_invocation(b, &invocations[k], &mut diags, &mut hovers, true);
        let ghost notes = spec_invocation_notes(b@, invocations@[k as int]).1;
        proof {
            assert(notes_view(diags@) =~= spec_invocation_notes(b@, invocations@[k as int]).0);
            assert(notes_view(hovers@) =~= notes);
            assert(notes.skip(0) =~= notes);
            assert(spec_hover_at(b@, position) == first_note_containing(notes, offset as int));
        }
        proof {
            assert(first_containing(rest, offset as int) == Some(invocations@[k as int]));
            assert(containing_diagnostics(b@, position) == notes_view(diags@));
        }
        let diags_ok = notes_within_chars(b, &diags);
        let mut q: usize = 0;
        while q < hovers.len()
            invariant
                q <= hovers@.len(),
                diags_ok == notes_on_boundaries(b@, containing_diagnostics(b@, position)),
                spec_hover_at(b@, position) == first_note_containing(notes, offset as int),
                notes_view(hovers@) == notes,
                first_note_containing(notes.skip(q as int), offset as int) == first_note_containing(
                    notes,
                    offset as int,
                ),
            decreases hovers@.len() - q,
        {
            proof {
                assert(notes.skip(q as int)[0] == hovers@[q as int]@);
                assert(notes.skip(q as int).skip(1) =~= notes.skip(q + 1));
            }
            if hovers[q].range.contains(offset) {
                let found = hovers.remove(q);
                let hover_ok = note_within_chars(b, &found);
                return (Some(found), diags_ok && hover_ok);
            }
            q = q + 1;
        }
        assert(notes.skip(q as int) =~= Seq::<SpecNote>::empty());
        return (None, diags_ok);
    }
    assert(invocations@.skip(k as int) =~= Seq::<MacroInvocation>::empty());
    (None, true)
}

/// The hover at an editor position of a source text: the explanation of
/// the tag, attribute, expression or CSS macro under the position, if any.
/// The spans worked out for it must have their ends where the text can be
/// cut (see [`hoverable`]).
pub fn hover_at(text: &str, position: Position) -> (r: Option<Hover>)
    requires
        text.spec_bytes().len() <= MAX_TEXT_LEN,
        hover_on_char_boundaries(text.spec_bytes(), position),
    ensures
        match r {
            None => spec_hover_at(text.spec_bytes(), position) is None,
            Some(h) => spec_hover_at(text.spec_bytes(), position) matches Some(n) && hover_of(
                h,
                text.spec_bytes(),
                n,
            ),
        },
{
    let b = text.as_bytes();
    let li = LineIndex::from_bytes(b);
    let (found, _) = find_hover(b, &li, position);
    proof {
        lemma_encoded_valid(text@);
        law_findings_are_text(b@, position);
    }
    match found {
        Some(n) => {
            let contents = bytes_to_string(vstd::slice::slice_to_vec(n.message.as_slice()));
            Some(Hover { contents, range: li.range(n.range) })
        },
        None => None,
    }
}

/// Whether [`hover_at`] can answer at `position`: no span worked out for
/// the hover ends inside a character.
pub fn hoverable(text: &str, position: Position) -> (r: bool)
    requires
        text.spec_bytes().len() <= MAX_TEXT_LEN,
    ensures
        r == hover_on_char_boundaries(text.spec_bytes(), position),
{
    let b = text.as_bytes();
    let li = LineIndex::from_bytes(b);
    find_hover(b, &li, position).1
}

/// The hover messages of an invocation found in a valid text are text.
proof fn lemma_invocation_hovers_text(b: Seq<u8>, inv: MacroInvocation)
    requires
        valid_utf8(b),
        invocation_wf(b, inv),
    ensures
        notes_text(spec_invocation_notes(b, inv).1),
{
    match inv.kind {
        MacroKind::Render => lemma_render_notes_text(b, inv),
        _ => {
            lemma_after_ascii(b, inv.body.start - 1);
            lemma_css_hovers_text(b, inv);
        },
    }
}

/// The messages of a valid text's findings are text: every diagnostic, and
/// the hover at any position.
pub proof fn law_findings_are_text(b: Seq<u8>, pos: Position)
    requires
        valid_utf8(b),
        b.len() <= usize::MAX,
    ensures
        notes_text(spec_analysis(b)),
        spec_hover_at(b, pos) matches Some(n) ==> valid_utf8(n.message),
{
    lemma_diagnostic_notes_text(b, spec_scan_macros(b));
    if let Some(off) = spec_offset(b, pos) {
        let invs = spec_scan_macros(b);
        lemma_scan_macros_wf(b, 0);
        lemma_first_containing(invs, off);
        if let Some(inv) = first_containing(invs, off) {
            let k = choose|k: int| 0 <= k < invs.len() && invs[k] == inv;
            assert(invocation_wf(b, invs[k]));
            lemma_invocation_hovers_text(b, inv);
            lemma_first_note_containing(spec_invocation_notes(b, inv).1, off);
            if let Some(n) = first_note_containing(spec_invocation_notes(b, inv).1, off) {
                let notes = spec_invocation_notes(b, inv).1;
                let q = choose|q: int| 0 <= q < notes.len() && notes[q] == n;
                assert(valid_utf8(notes[q].message));
            }
        }
    }
}

/// The invocations of a text lie in it, in text order, without overlapping:
/// each ends at or before the next one starts.
pub proof fn law_invocations_ordered(b: Seq<u8>)
    requires
        b.len() <= usize::MAX,
    ensures
        forall|k: int|
            0 <= k < spec_scan_macros(b).len() ==> invocation_wf(b, #[trigger] spec_scan_macros(b)[k]),
        forall|k: int|
            0 <= k < spec_scan_macros(b).len() - 1 ==> spec_scan_macros(b)[k].whole.end
                <= #[trigger] spec_scan_macros(b)[k + 1].whole.start,
{
    lemma_scan_macros_wf(b, 0);
}

/// A text without macro invocations has no diagnostics, and no hover.
pub proof fn law_no_macros_no_findings(b: Seq<u8>, pos: Position)
    requires
        spec_scan_macros(b).len() == 0,
    ensures
        spec_analysis(b).len() == 0,
        spec_hover_at(b, pos) is None,
{
}

proof fn lemma_first_note_containing(notes: Seq<SpecNote>, off: int)
    ensures
        first_note_containing(notes, off) matches Some(n) ==> n.range.spec_contains(off)
            && notes.contains(n),
    decreases notes.len(),
{
    if notes.len() > 0 && !notes[0].range.spec_contains(off) {
        lemma_first_note_containing(notes.skip(1), off);
        if let Some(n) = first_note_containing(notes.skip(1), off) {
            let k = choose|k: int| 0 <= k < notes.skip(1).len() && notes.skip(1)[k] == n;
            assert(notes[k + 1] == n);
        }
    } else if notes.len() > 0 {
        assert(notes[0] == notes[0]);
    }
}

proof fn lemma_first_containing(invs: Seq<MacroInvocation>, off: int)
    ensures
        first_containing(invs, off) matches Some(inv) ==> inv.whole.spec_contains(off)
            && invs.contains(inv),
        first_containing(invs, off) is None ==> forall|k: int|
            0 <= k < invs.len() ==> !(#[trigger] invs[k]).whole.spec_contains(off),
    decreases invs.len(),
{
    if invs.len() > 0 && !invs[0].whole.spec_contains(off) {
        lemma_first_containing(invs.skip(1), off);
        if let Some(inv) = first_containing(invs.skip(1), off) {
            let k = choose|k: int| 0 <= k < invs.skip(1).len() && invs.skip(1)[k] == inv;
            assert(invs[k + 1] == inv);
        } else {
            assert forall|k: int| 0 <= k < invs.len() implies !(
            #[trigger] invs[k]).whole.spec_contains(off) by {
                if k > 0 {
                    assert(invs[k] == invs.skip(1)[k - 1]);
                }
            }
        }
    } else if invs.len() > 0 {
        assert(invs[0] == invs[0]);
    }
}

/// A hover covers the position it answers, and comes from the invocation
/// that holds the position: there is none where no invocation does.
pub proof fn law_hover_covers_position(b: Seq<u8>, pos: Position)
    ensures
        spec_hover_at(b, pos) matches Some(n) ==> (spec_offset(b, pos) matches Some(off) && n.range.spec_contains(off)
            && (exists|k: int|
            0 <= k < spec_scan_macros(b).len() && (#[trigger] spec_scan_macros(b)[k]).whole.spec_contains(off)
            && spec_invocation_notes(b, spec_scan_macros(b)[k]).1.contains(n))),
        spec_offset(b, pos) matches Some(off) && (forall|k: int|
            0 <= k < spec_scan_macros(b).len() ==> !(
            #[trigger] spec_scan_macros(b)[k]).whole.spec_contains(off)) ==> spec_hover_at(b, pos) is None,
{
    if let Some(off) = spec_offset(b, pos) {
        let invs = spec_scan_macros(b);
        lemma_first_containing(invs, off);
        if let Some(inv) = first_containing(invs, off) {
            lemma_first_note_containing(spec_invocation_notes(b, inv).1, off);
            let k = choose|k: int| 0 <= k < invs.len() && invs[k] == inv;
            assert(invs[k].whole.spec_contains(off));
        }
    }
}

} // verus!
