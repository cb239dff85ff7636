//! The open documents of an editor session, keyed by URI.

use vstd::prelude::*;
use vstd::utf8::encode_utf8;

use crate::analysis::{
    analyze, diagnostics_of, findings_on_char_boundaries, hover_at, hover_of, hover_on_char_boundaries,
    hoverable, spec_analysis, spec_hover_at, Diagnostic, Hover,
};
use crate::line_index::{Position, MAX_TEXT_LEN};

verus! {

/// The text stored under `uri`: the last entry with that key.
pub open spec fn lookup(d: Seq<(String, String)>, uri: Seq<char>) -> Option<Seq<char>>
    decreases d.len(),
{
    if d.len() == 0 {
        None
    } else if d.last().0@ == uri {
        Some(d.last().1@)
    } else {
        lookup(d.drop_last(), uri)
    }
}

/// A text the store can keep: short enough to index, with every
/// diagnostic span ending where the text can be cut.
pub open spec fn storable(t: Seq<char>) -> bool {
    &&& encode_utf8(t).len() <= MAX_TEXT_LEN
    &&& findings_on_char_boundaries(encode_utf8(t))
}

pub open spec fn unique_keys(d: Seq<(String, String)>) -> bool {
    forall|i: int, j: int| 0 <= i < j < d.len() ==> d[i].0@ != d[j].0@
}

proof fn lemma_lookup_absent(d: Seq<(String, String)>, uri: Seq<char>)
    requires
        forall|i: int| 0 <= i < d.len() ==> d[i].0@ != uri,
    ensures
        lookup(d, uri) is None,
    decreases d.len(),
{
    if d.len() > 0 {
        lemma_lookup_absent(d.drop_last(), uri);
    }
}

proof fn lemma_lookup_present(d: Seq<(String, String)>, k: int)
    requires
        unique_keys(d),
        0 <= k < d.len(),
    ensures
        lookup(d, d[k].0@) == Some(d[k].1@),
    decreases d.len(),
{
    if k < d.len() - 1 {
        lemma_lookup_present(d.drop_last(), k);
    }
}

proof fn lemma_lookup_remove(d: Seq<(String, String)>, k: int, v: Seq<char>)
    requires
        unique_keys(d),
        0 <= k < d.len(),
    ensures
        unique_keys(d.remove(k)),
        lookup(d.remove(k), v) == if v == d[k].0@ {
            None
        } else {
            lookup(d, v)
        },
    decreases d.len(),
{
    let r = d.remove(k);
    assert(unique_keys(r)) by {
        assert forall|i: int, j: int| 0 <= i < j < r.len() implies r[i].0@ != r[j].0@ by {
            let ii = if i < k {
                i
            } else {
                i + 1
            };
            let jj = if j < k {
                j
            } else {
                j + 1
            };
            assert(r[i] == d[ii]);
            assert(r[j] == d[jj]);
        }
    }
    if k == d.len() - 1 {
        assert(r =~= d.drop_last());
        if v == d[k].0@ {
            assert forall|i: int| 0 <= i < r.len() implies r[i].0@ != v by {
                assert(r[i] == d[i]);
            }
            lemma_lookup_absent(r, v);
        }
    } else {
        lemma_lookup_remove(d.drop_last(), k, v);
        assert(r.drop_last() =~= d.drop_last().remove(k));
        assert(r.last() == d.last());
    }
}

/// The open documents: URI to text.
pub struct DocumentStore {
    documents: Vec<(String, String)>,
}

impl View for DocumentStore {
    type V = Map<Seq<char>, Seq<char>>;

    closed spec fn view(&self) -> Map<Seq<char>, Seq<char>> {
        Map::new(
            |uri: Seq<char>| lookup(self.documents@, uri) is Some,
            |uri: Seq<char>| lookup(self.documents@, uri)->0,
        )
    }
}

impl Default for DocumentStore {
    fn default() -> (r: Self)
        ensures
            r.wf(),
            r@ == Map::<Seq<char>, Seq<char>>::empty(),
    {
        DocumentStore::new()
    }
}

impl DocumentStore {
    /// Each URI occurs once, and each text can be kept.
    pub closed spec fn wf(&self) -> bool {
        &&& unique_keys(self.documents@)
        &&& forall|i: int| 0 <= i < self.documents@.len() ==> storable(#[trigger] self.documents@[i].1@)
    }

    /// A store with no documents.
    pub fn new() -> (r: Self)
        ensures
            r.wf(),
            r@ == Map::<Seq<char>, Seq<char>>::empty(),
    {
        let r = DocumentStore { documents: Vec::new() };
        assert(r@ =~= Map::<Seq<char>, Seq<char>>::empty());
        r
    }

    fn find(&self, uri: &String) -> (r: Option<usize>)
        requires
            self.wf(),
        ensures
            match r {
                Some(k) => k < self.documents@.len() && self.documents@[k as int].0@ == uri@,
                None => lookup(self.documents@, uri@) is None,
            },
    {
        let mut k: usize = 0;
        while k < self.documents.len()
            invariant
                k <= self.documents@.len(),
                forall|i: int| 0 <= i < k ==> self.documents@[i].0@ != uri@,
            decreases self.documents@.len() - k,
        {
            if self.documents[k].0 == *uri {
                return Some(k);
            }
            k = k + 1;
        }
        proof {
            lemma_lookup_absent(self.documents@, uri@);
        }
        None
    }

    /// The text stored under `uri`.
    fn get(&self, uri: &String) -> (r: Option<&String>)
        requires
            self.wf(),
        ensures
            match r {
                Some(t) => self@.contains_key(uri@) && self@[uri@] == t@ && storable(t@),
                None => !self@.contains_key(uri@),
            },
    {
        match self.find(uri) {
            Some(k) => {
                proof {
                    lemma_lookup_present(self.documents@, k as int);
                }
                Some(&self.documents[k].1)
            },
            None => None,
        }
    }

    /// Stores `text` under `uri`, replacing any earlier text.
    fn insert(&mut self, uri: String, text: String)
        requires
            old(self).wf(),
            storable(text@),
        ensures
            final(self).wf(),
            final(self)@ == old(self)@.insert(uri@, text@),
    {
        self.remove(&uri);
        let ghost before = self.documents@;
        let ghost mid = self@;
        let ghost u = uri@;
        let ghost t = text@;
        self.documents.push((uri, text));
        proof {
            assert(self.documents@.drop_last() =~= before);
            assert forall|v: Seq<char>| #[trigger]
                lookup(self.documents@, v) == if v == u {
                    Some(t)
                } else {
                    lookup(before, v)
                } by {}
            assert(self@ =~= mid.insert(u, t));
            assert(unique_keys(self.documents@)) by {
                assert forall|i: int, j: int|
                    0 <= i < j < self.documents@.len() implies self.documents@[i].0@
                    != self.documents@[j].0@ by {
                    if j == self.documents@.len() - 1 {
                        assert(self.documents@[i] == before[i]);
                        if before[i].0@ == uri@ {
                            lemma_lookup_present(before, i);
                        }
                    } else {
                        assert(self.documents@[i] == before[i]);
                        assert(self.documents@[j] == before[j]);
                    }
                }
            }
            assert forall|i: int| 0 <= i < self.documents@.len() implies storable(
                #[trigger] self.documents@[i].1@,
            ) by {
                if i < before.len() {
                    assert(self.documents@[i] == before[i]);
                }
            }
        }
    }

    /// Forgets the text stored under `uri`.
    fn remove(&mut self, uri: &String)
        requires
            old(self).wf(),
        ensures
            final(self).wf(),
            final(self)@ == old(self)@.remove(uri@),
            lookup(final(self).documents@, uri@) is None,
    {
        match self.find(uri) {
            Some(k) => {
                let ghost before = self.documents@;
                let _ = self.documents.remove(k);
                proof {
                    assert forall|v: Seq<char>| #[trigger]
                        lookup(self.documents@, v) == if v == uri@ {
                            None
                        } else {
                            lookup(before, v)
                        } by {
                        lemma_lookup_remove(before, k as int, v);
                    }
                    lemma_lookup_remove(before, k as int, uri@);
                    assert forall|i: int| 0 <= i < self.documents@.len() implies storable(
                        #[trigger] self.documents@[i].1@,
                    ) by {
                        if i < k {
                            assert(self.documents@[i] == before[i]);
                        } else {
                            assert(self.documents@[i] == before[i + 1]);
                        }
                    }
                    assert(self@ =~= old(self)@.remove(uri@));
                }
            },
            None => {
                assert(self@ =~= old(self)@.remove(uri@));
            },
        }
    }

    /// Opens a document and returns its diagnostics.
    pub fn did_open(&mut self, uri: String, text: String) -> (r: Vec<Diagnostic>)
        requires
            old(self).wf(),
            storable(text@),
        ensures
            final(self).wf(),
            final(self)@ == old(self)@.insert(uri@, text@),
            diagnostics_of(r@, encode_utf8(text@), spec_analysis(encode_utf8(text@))),
    {
        let key = uri.clone();
        self.insert(uri, text);
        self.diagnostics(&key)
    }

    /// Replaces the text of a document and returns its diagnostics.
    pub fn did_change(&mut self, uri: String, text: String) -> (r: Vec<Diagnostic>)
        requires
            old(self).wf(),
            storable(text@),
        ensures
            final(self).wf(),
            final(self)@ == old(self)@.insert(uri@, text@),
            diagnostics_of(r@, encode_utf8(text@), spec_analysis(encode_utf8(text@))),
    {
        let key = uri.clone();
        self.insert(uri, text);
        self.diagnostics(&key)
    }

    /// Closes a document; a closed document has no diagnostics.
    pub fn did_close(&mut self, uri: &String) -> (r: Vec<Diagnostic>)
        requires
            old(self).wf(),
        ensures
            final(self).wf(),
            final(self)@ == old(self)@.remove(uri@),
            r@.len() == 0,
    {
        self.remove(uri);
        Vec::new()
    }

    /// The hover at a position of an open document.
    pub fn hover(&self, uri: &String, position: Position) -> (r: Option<Hover>)
        requires
            self.wf(),
            self@.contains_key(uri@) ==> hover_on_char_boundaries(encode_utf8(self@[uri@]), position),
        ensures
            match r {
                None => !self@.contains_key(uri@) || spec_hover_at(
                    encode_utf8(self@[uri@]),
                    position,
                ) is None,
                Some(h) => self@.contains_key(uri@) && (spec_hover_at(
                    encode_utf8(self@[uri@]),
                    position,
                ) matches Some(n) && hover_of(h, encode_utf8(self@[uri@]), n)),
            },
    {
        match self.get(uri) {
            Some(text) => hover_at(text.as_str(), position),
            None => None,
        }
    }

    /// Whether [`DocumentStore::hover`] can answer at `position` of the
    /// document under `uri`: see [`hoverable`].
    pub fn can_hover(&self, uri: &String, position: Position) -> (r: bool)
        requires
            self.wf(),
        ensures
            r == (self@.contains_key(uri@) ==> hover_on_char_boundaries(
                encode_utf8(self@[uri@]),
                position,
            )),
    {
        match self.get(uri) {
            Some(text) => hoverable(text.as_str(), position),
            None => true,
        }
    }

    /// The diagnostics of an open document; none for an unknown URI.
    pub fn diagnostics(&self, uri: &String) -> (r: Vec<Diagnostic>)
        requires
            self.wf(),
        ensures
            self@.contains_key(uri@) ==> diagnostics_of(
                r@,
                encode_utf8(self@[uri@]),
                spec_analysis(encode_utf8(self@[uri@])),
            ),
            !self@.contains_key(uri@) ==> r@.len() == 0,
    {
        match self.get(uri) {
            Some(text) => analyze(text.as_str()).diagnostics,
            None => Vec::new(),
        }
    }
}

/// How the edits of [`DocumentStore`] combine, over the URI-to-text map
/// that `did_open`, `did_change` and `did_close` update: closing a document
/// that was just opened restores the store; a second text under a URI
/// replaces the first; an edit under one URI leaves every other URI's text
/// as it was.
pub proof fn law_store_edits(
    m: Map<Seq<char>, Seq<char>>,
    uri: Seq<char>,
    text: Seq<char>,
    newer: Seq<char>,
    other: Seq<char>,
)
    ensures
        !m.contains_key(uri) ==> m.insert(uri, text).remove(uri) == m,
        m.insert(uri, text).insert(uri, newer) == m.insert(uri, newer),
        m.insert(uri, text)[uri] == text,
        other != uri ==> (m.insert(uri, text).contains_key(other) == m.contains_key(other)
            && m.remove(uri).contains_key(other) == m.contains_key(other)
            && (m.contains_key(other) ==> m.insert(uri, text)[other] == m[other] && m.remove(
            uri,
        )[other] == m[other])),
        !m.remove(uri).contains_key(uri),
{
    if !m.contains_key(uri) {
        assert(m.insert(uri, text).remove(uri) =~= m);
    }
    assert(m.insert(uri, text).insert(uri, newer) =~= m.insert(uri, newer));
}

} // verus!
