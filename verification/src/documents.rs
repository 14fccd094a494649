//! The documents an editor has open, by URI: what opening, changing and
//! closing a document does to them.

use vstd::prelude::*;
use vstd::string::*;
use crate::text::same_text;
use crate::editor::{hover_at_position, hover_defined, hover_model, hover_spec};
use crate::schema::ObjSchema;

verus! {

/// The text of the first document with the given URI in a list of
/// documents.
pub open spec fn doc_lookup(docs: Seq<(Seq<char>, Seq<char>)>, uri: Seq<char>) -> Option<Seq<char>>
    decreases docs.len(),
{
    if docs.len() == 0 {
        None
    } else if docs[0].0 == uri {
        Some(docs[0].1)
    } else {
        doc_lookup(docs.drop_first(), uri)
    }
}

/// No URI occurs twice in a list of documents.
pub open spec fn distinct_uris(docs: Seq<(Seq<char>, Seq<char>)>) -> bool {
    forall|a: int, b: int| 0 <= a < b < docs.len() ==> (#[trigger] docs[a]).0 != (#[trigger] docs[b]).0
}

/// The open documents, each with the text the editor last sent for it.
pub struct Documents {
    docs: Vec<(String, String)>,
}

impl Documents {
    /// No URI is held twice.
    #[verifier::type_invariant]
    spec fn uris_distinct(self) -> bool {
        distinct_uris(self.pairs())
    }

    spec fn pairs(self) -> Seq<(Seq<char>, Seq<char>)> {
        self.docs@.map_values(|p: (String, String)| (p.0@, p.1@))
    }
}

impl View for Documents {
    type V = Map<Seq<char>, Seq<char>>;

    /// The text of each open document, by URI.
    closed spec fn view(&self) -> Map<Seq<char>, Seq<char>> {
        Map::new(|u: Seq<char>| doc_lookup(self.pairs(), u) is Some, |u: Seq<char>| doc_lookup(self.pairs(), u)->Some_0)
    }
}

/// Where the first pair with URI `u` is at `i`, the lookup gives its text;
/// where no pair has URI `u`, it gives nothing.
proof fn lemma_doc_lookup_at(docs: Seq<(Seq<char>, Seq<char>)>, u: Seq<char>, i: int)
    requires
        0 <= i <= docs.len(),
        forall|j: int| 0 <= j < i ==> (#[trigger] docs[j]).0 != u,
        i < docs.len() ==> docs[i].0 == u,
    ensures
        doc_lookup(docs, u) == if i < docs.len() {
            Some(docs[i].1)
        } else {
            None::<Seq<char>>
        },
    decreases docs.len(),
{
    if docs.len() > 0 && i > 0 {
        lemma_doc_lookup_at(docs.drop_first(), u, i - 1);
    }
}

/// With distinct URIs, the pair at `i` is the one a lookup of its URI finds.
proof fn lemma_doc_lookup_distinct(docs: Seq<(Seq<char>, Seq<char>)>, i: int)
    requires
        0 <= i < docs.len(),
        forall|a: int, b: int| 0 <= a < b < docs.len() ==> (#[trigger] docs[a]).0 != (#[trigger] docs[b]).0,
    ensures
        doc_lookup(docs, docs[i].0) == Some(docs[i].1),
{
    assert forall|j: int| 0 <= j < i implies (#[trigger] docs[j]).0 != docs[i].0 by {
        assert(docs[j].0 != docs[i].0);
    }
    lemma_doc_lookup_at(docs, docs[i].0, i);
}

/// A lookup finds a pair with the URI looked up, or says that none has it.
proof fn lemma_doc_lookup_found(docs: Seq<(Seq<char>, Seq<char>)>, u: Seq<char>)
    ensures
        doc_lookup(docs, u) matches Some(t) ==> exists|i: int|
            0 <= i < docs.len() && (#[trigger] docs[i]).0 == u && docs[i].1 == t,
        doc_lookup(docs, u) is None ==> forall|i: int| 0 <= i < docs.len() ==> (#[trigger] docs[i]).0 != u,
    decreases docs.len(),
{
    if docs.len() > 0 {
        lemma_doc_lookup_found(docs.drop_first(), u);
        if docs[0].0 != u {
            if let Some(t) = doc_lookup(docs, u) {
                let i = choose|i: int| 0 <= i < docs.drop_first().len() && (#[trigger] docs.drop_first()[i]).0 == u && docs.drop_first()[i].1 == t;
                assert(docs[i + 1] == docs.drop_first()[i]);
            } else {
                assert forall|i: int| 0 <= i < docs.len() implies (#[trigger] docs[i]).0 != u by {
                    if i > 0 {
                        assert(docs[i] == docs.drop_first()[i - 1]);
                    }
                }
            }
        }
    }
}

/// In a list without repeated URIs, a lookup finds exactly the pair with
/// the URI looked up.
proof fn lemma_doc_lookup_exact(docs: Seq<(Seq<char>, Seq<char>)>, u: Seq<char>)
    requires
        distinct_uris(docs),
    ensures
        forall|j: int| 0 <= j < docs.len() && (#[trigger] docs[j]).0 == u ==> doc_lookup(docs, u) == Some(docs[j].1),
        (forall|j: int| 0 <= j < docs.len() ==> (#[trigger] docs[j]).0 != u) ==> doc_lookup(docs, u) is None,
{
    assert forall|j: int| 0 <= j < docs.len() && (#[trigger] docs[j]).0 == u implies doc_lookup(docs, u) == Some(docs[j].1) by {
        lemma_doc_lookup_distinct(docs, j);
    }
    lemma_doc_lookup_found(docs, u);
}

impl Documents {
    /// No open documents.
    pub fn new() -> (r: Documents)
        ensures
            r@ == Map::<Seq<char>, Seq<char>>::empty(),
    {
        let r = Documents { docs: Vec::new() };
        assert(r@ =~= Map::<Seq<char>, Seq<char>>::empty());
        r
    }

    /// Where the document with `uri` sits in the list, if it is open.
    fn position(&self, uri: &str) -> (r: Option<usize>)
        ensures
            match r {
                Some(i) => i < self.docs@.len() && self.docs@[i as int].0@ == uri@,
                None => forall|i: int| 0 <= i < self.docs@.len() ==> (#[trigger] self.docs@[i]).0@ != uri@,
            },
    {
        let n = self.docs.len();
        let mut i: usize = 0;
        while i < n
            invariant
                0 <= i <= n,
                n == self.docs@.len(),
                forall|j: int| 0 <= j < i ==> (#[trigger] self.docs@[j]).0@ != uri@,
            decreases n - i,
        {
            if same_text(self.docs[i].0.as_str(), uri) {
                return Some(i);
            }
            i = i + 1;
        }
        None
    }

    /// The text of the document with `uri`, if it is open.
    pub fn get(&self, uri: &str) -> (r: Option<&String>)
        ensures
            match r {
                Some(t) => self@.contains_key(uri@) && self@[uri@] == t@,
                None => !self@.contains_key(uri@),
            },
    {
        proof {
            use_type_invariant(self);
        }
        match self.position(uri) {
            Some(i) => {
                proof {
                    assert(self.pairs()[i as int] == (self.docs@[i as int].0@, self.docs@[i as int].1@));
                    lemma_doc_lookup_distinct(self.pairs(), i as int);
                }
                Some(&self.docs[i].1)
            },
            None => {
                proof {
                    assert forall|j: int| 0 <= j < self.pairs().len() implies (#[trigger] self.pairs()[j]).0 != uri@ by {
                        assert(self.docs@[j].0@ != uri@);
                    }
                    lemma_doc_lookup_at(self.pairs(), uri@, self.pairs().len() as int);
                }
                None
            },
        }
    }

    /// Records `text` as the text of the document with `uri`, opening it if
    /// it is not open.
    pub fn open(&mut self, uri: &str, text: String)
        ensures
            final(self)@ == old(self)@.insert(uri@, text@),
    {
        proof {
            use_type_invariant(&*self);
        }
        let ghost before = self.pairs();
        let ghost tv = text@;
        let pos = self.position(uri);
        let mut docs: Vec<(String, String)> = Vec::new();
        std::mem::swap(&mut docs, &mut self.docs);
        assert(docs@.map_values(|p: (String, String)| (p.0@, p.1@)) == before);
        match pos {
            Some(i) => {
                let key = docs[i].0.clone();
                docs[i] = (key, text);
            },
            None => {
                docs.push((uri.to_owned(), text));
            },
        }
        let ghost after = docs@.map_values(|p: (String, String)| (p.0@, p.1@));
        proof {
            match pos {
                Some(i) => {
                    assert(after =~= before.update(i as int, (uri@, tv)));
                },
                None => {
                    assert(after =~= before.push((uri@, tv)));
                },
            }
            assert(distinct_uris(after)) by {
                assert forall|a: int, b: int| 0 <= a < b < after.len() implies (#[trigger] after[a]).0 != (#[trigger] after[b]).0 by {
                    if pos is None && b == before.len() {
                        assert(docs@[a].0@ != uri@);
                    } else if pos == Some(a as usize) {
                        assert(before[b].0 != before[a].0);
                    } else if pos == Some(b as usize) {
                        assert(before[b].0 != before[a].0);
                    } else {
                        assert(before[b].0 != before[a].0);
                    }
                }
            }
        }
        self.docs = docs;
        proof {
            assert(self.pairs() == after);
            assert forall|k: Seq<char>| #[trigger] doc_lookup(after, k) == if k == uri@ {
                Some(tv)
            } else {
                doc_lookup(before, k)
            } by {
                lemma_doc_lookup_exact(after, k);
                lemma_doc_lookup_exact(before, k);
                lemma_doc_lookup_found(before, k);
                let j = after.len() - 1;
                if k == uri@ {
                    match pos {
                        Some(i) => assert(after[i as int] == (uri@, tv)),
                        None => assert(after[j] == (uri@, tv)),
                    }
                } else {
                    if let Some(t) = doc_lookup(before, k) {
                        let m = choose|m: int| 0 <= m < before.len() && (#[trigger] before[m]).0 == k && before[m].1 == t;
                        assert(after[m] == before[m]);
                    } else {
                        assert forall|m: int| 0 <= m < after.len() implies (#[trigger] after[m]).0 != k by {
                            if m < before.len() && pos != Some(m as usize) {
                                assert(after[m] == before[m]);
                            }
                        }
                    }
                }
            }
        }
        assert(self@ =~= old(self)@.insert(uri@, tv));
    }

    /// Applies a full-text change: the last of `changes`, if any, becomes the
    /// text of the document with `uri`.
    pub fn change(&mut self, uri: &str, changes: Vec<String>)
        ensures
            changes@.len() == 0 ==> final(self)@ == old(self)@,
            changes@.len() > 0 ==> final(self)@ == old(self)@.insert(
                uri@,
                changes@[changes@.len() - 1]@,
            ),
    {
        let mut changes = changes;
        match changes.pop() {
            Some(last) => self.open(uri, last),
            None => {},
        }
    }

    /// Forgets the document with `uri`.
    pub fn close(&mut self, uri: &str)
        ensures
            final(self)@ == old(self)@.remove(uri@),
    {
        proof {
            use_type_invariant(&*self);
        }
        let ghost before = self.pairs();
        let mut docs: Vec<(String, String)> = Vec::new();
        std::mem::swap(&mut docs, &mut self.docs);
        assert(docs@.map_values(|p: (String, String)| (p.0@, p.1@)) == before);
        let n = docs.len();
        let mut i: usize = 0;
        while i < n && !same_text(docs[i].0.as_str(), uri)
            invariant
                0 <= i <= n,
                n == docs@.len(),
                forall|j: int| 0 <= j < i ==> (#[trigger] docs@[j]).0@ != uri@,
            decreases n - i,
        {
            i = i + 1;
        }
        let found = i < n;
        if found {
            docs.remove(i);
        }
        let ghost after = docs@.map_values(|p: (String, String)| (p.0@, p.1@));
        proof {
            if found {
                assert(after =~= before.remove(i as int));
            } else {
                assert(after =~= before);
            }
            assert(distinct_uris(after)) by {
                assert forall|a: int, b: int| 0 <= a < b < after.len() implies (#[trigger] after[a]).0 != (#[trigger] after[b]).0 by {
                    if found && b >= i {
                        if a >= i {
                            assert(before[a + 1].0 != before[b + 1].0);
                        } else {
                            assert(before[a].0 != before[b + 1].0);
                        }
                    } else {
                        assert(before[a].0 != before[b].0);
                    }
                }
            }
        }
        self.docs = docs;
        proof {
            assert(self.pairs() == after);
            assert forall|k: Seq<char>| #[trigger] doc_lookup(after, k) == if k == uri@ {
                None
            } else {
                doc_lookup(before, k)
            } by {
                lemma_doc_lookup_exact(after, k);
                lemma_doc_lookup_exact(before, k);
                lemma_doc_lookup_found(before, k);
                if k == uri@ {
                    assert forall|m: int| 0 <= m < after.len() implies (#[trigger] after[m]).0 != k by {
                        if found && m >= i {
                            assert(after[m] == before[m + 1]);
                            assert(before[i as int].0 != before[m + 1].0);
                        } else {
                            assert(after[m] == before[m]);
                            assert(docs@[m].0@ != uri@);
                        }
                    }
                } else {
                    if let Some(t) = doc_lookup(before, k) {
                        let m = choose|m: int| 0 <= m < before.len() && (#[trigger] before[m]).0 == k && before[m].1 == t;
                        if found && m > i {
                            assert(after[m - 1] == before[m]);
                        } else {
                            assert(m != i || !found);
                            assert(after[m] == before[m]);
                        }
                    } else {
                        assert forall|m: int| 0 <= m < after.len() implies (#[trigger] after[m]).0 != k by {
                            if found && m >= i {
                                assert(after[m] == before[m + 1]);
                            } else {
                                assert(after[m] == before[m]);
                            }
                        }
                    }
                }
            }
        }
        assert(self@ =~= old(self)@.remove(uri@));
    }

    /// The hover for a position of the open document with `uri`: the word
    /// there and the documentation of the known field it names; nothing
    /// where the document is not open.
    pub fn hover_at_position(&self, uri: &str, line: usize, character: usize, schema: &ObjSchema) -> (r:
        Option<(String, String)>)
        requires
            self@.contains_key(uri@) ==> hover_defined(self@[uri@], line as nat, character as int),
        ensures
            hover_model(r) == if self@.contains_key(uri@) {
                hover_spec(self@[uri@], line as nat, character as int, *schema)
            } else {
                None
            },
    {
        match self.get(uri) {
            Some(content) => hover_at_position(content.as_str(), line, character, schema),
            None => None,
        }
    }
}

} // verus!
