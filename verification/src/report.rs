//! Findings of the scanners before they are turned into editor positions: a
//! byte span and a UTF-8 message.

use vstd::prelude::*;
use vstd::string::StringSliceAdditionalSpecFns;
use vstd::utf8::valid_utf8;

use crate::bytes::{push_range, push_str};
use crate::line_index::{at_char_boundary, on_char_boundary};
use crate::scan::ByteRange;

verus! {

/// A diagnostic or hover message attached to a byte span.
#[derive(Clone, Debug)]
pub struct Note {
    pub range: ByteRange,
    pub message: Vec<u8>,
}

/// The mathematical value of a [`Note`].
pub ghost struct SpecNote {
    pub range: ByteRange,
    pub message: Seq<u8>,
}

impl View for Note {
    type V = SpecNote;

    open spec fn view(&self) -> SpecNote {
        SpecNote { range: self.range, message: self.message@ }
    }
}

pub open spec fn notes_view(v: Seq<Note>) -> Seq<SpecNote> {
    v.map_values(|n: Note| n@)
}

/// Whether neither end of the note's span falls inside a character of `b`.
pub open spec fn note_on_boundaries(b: Seq<u8>, n: SpecNote) -> bool {
    on_char_boundary(b, n.range.start as int) && on_char_boundary(b, n.range.end as int)
}

/// Whether no note's span has an end inside a character of `b`.
pub open spec fn notes_on_boundaries(b: Seq<u8>, ns: Seq<SpecNote>) -> bool {
    forall|k: int| 0 <= k < ns.len() ==> note_on_boundaries(b, #[trigger] ns[k])
}

/// Whether the note's span has both ends where `b` can be cut.
pub fn note_within_chars(b: &[u8], n: &Note) -> (r: bool)
    ensures
        r == note_on_boundaries(b@, n@),
{
    at_char_boundary(b, n.range.start) && at_char_boundary(b, n.range.end)
}

/// Whether every note's span has both ends where `b` can be cut.
pub fn notes_within_chars(b: &[u8], notes: &Vec<Note>) -> (r: bool)
    ensures
        r == notes_on_boundaries(b@, notes_view(notes@)),
{
    let mut k: usize = 0;
    while k < notes.len()
        invariant
            k <= notes@.len(),
            forall|q: int| 0 <= q < k ==> note_on_boundaries(b@, #[trigger] notes_view(notes@)[q]),
        decreases notes@.len() - k,
    {
        if !note_within_chars(b, &notes[k]) {
            assert(notes_view(notes@)[k as int] == notes@[k as int]@);
            return false;
        }
        k = k + 1;
    }
    true
}

/// Whether every note's message is valid UTF-8, that is, text.
pub open spec fn notes_text(ns: Seq<SpecNote>) -> bool {
    forall|k: int| 0 <= k < ns.len() ==> valid_utf8(#[trigger] ns[k].message)
}

pub proof fn lemma_notes_text_join(a: Seq<SpecNote>, b: Seq<SpecNote>)
    requires
        notes_text(a),
        notes_text(b),
    ensures
        notes_text(a + b),
{
    assert forall|k: int| 0 <= k < (a + b).len() implies valid_utf8(#[trigger] (a + b)[k].message) by {
        if k < a.len() {
            assert((a + b)[k] == a[k]);
        } else {
            assert((a + b)[k] == b[k - a.len()]);
        }
    }
}

/// A note over `start..end`.
pub open spec fn note(start: int, end: int, message: Seq<u8>) -> SpecNote {
    SpecNote { range: ByteRange { start: start as usize, end: end as usize }, message }
}

pub proof fn lemma_notes_view_push(v: Seq<Note>, n: Note)
    ensures
        notes_view(v.push(n)) == notes_view(v).push(n@),
{
    assert(notes_view(v.push(n)) =~= notes_view(v).push(n@));
}

/// Appends a note and keeps `notes_view` in step.
pub fn push_note(v: &mut Vec<Note>, range: ByteRange, message: Vec<u8>)
    ensures
        notes_view(final(v)@) == notes_view(old(v)@).push(SpecNote { range, message: message@ }),
{
    let n = Note { range, message };
    proof {
        lemma_notes_view_push(v@, n);
    }
    v.push(n);
}

/// The bytes of a string literal, as a message.
pub fn msg(a: &str) -> (r: Vec<u8>)
    ensures
        r@ == a.spec_bytes(),
{
    let mut r: Vec<u8> = Vec::new();
    push_str(&mut r, a);
    assert(r@ =~= a.spec_bytes());
    r
}

/// `a`, then `b[start..end]`, then `c`.
pub fn msg_with(a: &str, b: &[u8], start: usize, end: usize, c: &str) -> (r: Vec<u8>)
    requires
        start <= end <= b@.len(),
    ensures
        r@ == a.spec_bytes() + b@.subrange(start as int, end as int) + c.spec_bytes(),
{
    let mut r: Vec<u8> = Vec::new();
    push_str(&mut r, a);
    push_range(&mut r, b, start, end);
    push_str(&mut r, c);
    assert(r@ =~= a.spec_bytes() + b@.subrange(start as int, end as int) + c.spec_bytes());
    r
}

/// `a`, then `m1`, then `c`, then `m2`, then `e`.
pub fn msg_with2(a: &str, m1: &[u8], c: &str, m2: &[u8], e: &str) -> (r: Vec<u8>)
    ensures
        r@ == a.spec_bytes() + m1@ + c.spec_bytes() + m2@ + e.spec_bytes(),
{
    let mut r: Vec<u8> = Vec::new();
    push_str(&mut r, a);
    push_range(&mut r, m1, 0, m1.len());
    push_str(&mut r, c);
    push_range(&mut r, m2, 0, m2.len());
    push_str(&mut r, e);
    assert(m1@.subrange(0, m1@.len() as int) =~= m1@);
    assert(m2@.subrange(0, m2@.len() as int) =~= m2@);
    assert(r@ =~= a.spec_bytes() + m1@ + c.spec_bytes() + m2@ + e.spec_bytes());
    r
}

} // verus!
