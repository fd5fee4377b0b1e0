//! A small Boolean retrieval engine: an inverted index from terms to ascending
//! postings lists, and merge joins that answer AND, AND-NOT and OR queries.

pub mod inverted_list;
pub mod merge;
pub mod model;
pub mod render;
pub mod set_laws;
pub mod term_map;

use vstd::prelude::*;
use crate::inverted_list::{DocId, InvertedList, PostingIterator, SetMethods};
use crate::merge::{
    lemma_and_not_within, lemma_and_within, lemma_or_within, merge_and, merge_and_not, merge_or,
    strictly_ascending,
};
use crate::model::{
    internal_ids, lemma_posted_step, listing_view, posted, term_views, IndexView,
};
use crate::render::{render, rendered};
use crate::set_laws::{
    lemma_and_is_intersection, lemma_and_not_is_difference, lemma_and_not_strictly_ascending,
    lemma_or_is_union, lemma_strictly_ascending_occurrences,
};
use crate::term_map::{has_term, lemma_place_unique, place_of, term_lt, TermMap};

verus! {

/// The text of a document.
pub type Doc = String;

/// A word by which documents are found.
pub type Term = String;

/// A request for the documents that two terms select.
pub enum Query {
    /// The documents in which one of the two terms occurs.
    Or(String, String),
    /// The documents in which both terms occur.
    And(String, String),
    /// The documents in which the first term occurs and the second does not.
    AndNot(String, String),
}

impl Query {
    /// The first term of the request.
    pub open spec fn left(self) -> Seq<char> {
        match self {
            Query::Or(l, _) => l@,
            Query::And(l, _) => l@,
            Query::AndNot(l, _) => l@,
        }
    }

    /// The second term of the request.
    pub open spec fn right(self) -> Seq<char> {
        match self {
            Query::Or(_, r) => r@,
            Query::And(_, r) => r@,
            Query::AndNot(_, r) => r@,
        }
    }
}

/// Why a request has no answer.
#[derive(Debug, PartialEq, Eq, Clone, Copy)]
pub enum QueryError {
    /// A term of the request was never indexed.
    UnknownTerm,
}

/// Drains a posting sequence into the numbers by which its documents are
/// known outside: one more than their identifiers.
fn external_ids<'a, I>(iter: I) -> (r: Vec<DocId>) where I: PostingIterator<'a>
    requires
        iter.wf(),
        forall|i: int| 0 <= i < iter.remaining().len() ==> iter.remaining()[i] < usize::MAX,
    ensures
        forall|i: int| 0 <= i < r@.len() ==> r@[i] >= 1,
        internal_ids(r@) == iter.remaining(),
{
    let ghost all = iter.remaining();
    let mut cursor = iter;
    let mut out: Vec<DocId> = Vec::new();
    loop
        invariant
            cursor.wf(),
            all == iter.remaining(),
            forall|i: int| 0 <= i < all.len() ==> all[i] < usize::MAX,
            out@.len() <= all.len(),
            cursor.remaining() == all.skip(out@.len() as int),
            forall|i: int| 0 <= i < out@.len() ==> out@[i] == all[i] + 1,
        decreases cursor.remaining().len(),
    {
        let ghost done = out@.len() as int;
        match cursor.next() {
            Some(p) => {
                assert(all.skip(done)[0] == all[done]);
                assert(all.skip(done).skip(1) =~= all.skip(done + 1));
                out.push(p.doc_id + 1);
            },
            None => {
                assert(all.skip(done).len() == all.len() - done);
                assert(internal_ids(out@) =~= all);
                return out;
            },
        }
    }
}

/// An inverted index over documents that a tokenizer splits into terms.
pub struct InvertedIndex<T> {
    docs: Vec<Doc>,
    term_map: TermMap,
    index: Vec<InvertedList>,
    tokenizer: T,
}

impl<T> InvertedIndex<T> where T: Fn(&Doc) -> Vec<Term> {
    /// The tokenizer of the index.
    pub closed spec fn tokenizer(&self) -> T {
        self.tokenizer
    }

    /// What the index holds.
    pub closed spec fn view(&self) -> IndexView {
        IndexView {
            docs: Seq::new(self.docs@.len(), |i: int| self.docs@[i]@),
            postings: Map::new(
                |t: Seq<char>| self.term_map@.contains_key(t),
                |t: Seq<char>| self.index@[self.term_map@[t] as int]@,
            ),
        }
    }

    /// The invariant of the index: every known term has a postings list of its
    /// own, which names a document, ascends strictly and names only documents
    /// that exist; and the tokenizer accepts every text.
    pub closed spec fn wf(&self) -> bool {
        &&& self.term_map.wf()
        &&& forall|t: Seq<char>| #[trigger]
            self.term_map@.contains_key(t) ==> self.term_map@[t] < self.index@.len()
        &&& forall|t: Seq<char>, u: Seq<char>|
            #![trigger self.term_map@[t], self.term_map@[u]]
            self.term_map@.contains_key(t) && self.term_map@.contains_key(u) && t != u
                ==> self.term_map@[t] != self.term_map@[u]
        &&& forall|k: int|
            0 <= k < self.index@.len() ==> strictly_ascending(#[trigger] self.index@[k]@)
        &&& forall|k: int| 0 <= k < self.index@.len() ==> (#[trigger] self.index@[k]@).len() > 0
        &&& forall|k: int, i: int|
            0 <= k < self.index@.len() && 0 <= i < self.index@[k]@.len() ==> #[trigger] self.index@[k]@[i]
                < self.docs@.len()
        &&& forall|d: Doc| call_requires(self.tokenizer, (&d,))
    }

    /// What a valid index holds is valid.
    pub proof fn lemma_view_wf(&self)
        requires
            self.wf(),
        ensures
            self@.wf(),
    {
        assert forall|t: Seq<char>| #[trigger] self@.postings.contains_key(t) implies {
            &&& self@.postings[t].len() > 0
            &&& strictly_ascending(self@.postings[t])
            &&& forall|i: int|
                0 <= i < self@.postings[t].len() ==> self@.postings[t][i] < self@.docs.len()
        } by {
            let k = self.term_map@[t] as int;
            assert(strictly_ascending(self.index@[k]@));
            assert(self.index@[k]@.len() > 0);
            assert forall|i: int| 0 <= i < self.index@[k]@.len() implies self.index@[k]@[i]
                < self.docs@.len() by {}
        }
    }

    /// An index without documents. The tokenizer must accept every text.
    pub fn new(tokenizer: T) -> (r: Self)
        requires
            forall|d: Doc| call_requires(tokenizer, (&d,)),
        ensures
            r.wf(),
            r.tokenizer() == tokenizer,
            r@.docs == Seq::<Seq<char>>::empty(),
            r@.postings == Map::<Seq<char>, Seq<nat>>::empty(),
    {
        tokenizer(&String::new());
        let r = Self { docs: Vec::new(), term_map: TermMap::new(), index: Vec::new(), tokenizer };
        assert(r@.docs =~= Seq::<Seq<char>>::empty());
        assert(r@.postings =~= Map::<Seq<char>, Seq<nat>>::empty());
        r
    }

    /// The number of the postings list of a term, if the term is known.
    fn term_pos(&self, term: &Term) -> (r: Option<usize>)
        requires
            self.wf(),
        ensures
            r is Some <==> self@.postings.contains_key(term@),
            r is Some ==> r->0 < self.index@.len() && self.index@[r->0 as int]@
                == self@.postings[term@],
    {
        self.term_map.get(term)
    }

    /// Adds a document that the tokenizer has split into `terms`: the document
    /// gets the next identifier, and the list of each of the terms gains it once.
    pub fn insert_terms(&mut self, doc: Doc, terms: Vec<Term>)
        requires
            old(self).wf(),
        ensures
            final(self).wf(),
            final(self).tokenizer() == old(self).tokenizer(),
            final(self)@ == old(self)@.with_document(doc@, term_views(terms@)),
    {
        let ghost base = self@.postings;
        let ghost ts = term_views(terms@);
        let doc_id = self.docs.len();
        self.docs.push(doc);
        assert(self@.postings =~= posted(base, ts.take(0), doc_id as nat));
        let mut i: usize = 0;
        while i < terms.len()
            invariant
                i <= terms.len(),
                ts == term_views(terms@),
                self.wf(),
                self.docs@ == old(self).docs@.push(doc),
                doc_id == old(self).docs@.len(),
                self.tokenizer == old(self).tokenizer,
                base == old(self)@.postings,
                forall|t: Seq<char>, j: int|
                    base.contains_key(t) && 0 <= j < base[t].len() ==> #[trigger] base[t][j]
                        < doc_id,
                self@.postings == posted(base, ts.take(i as int), doc_id as nat),
            decreases terms.len() - i,
        {
            proof {
                lemma_posted_step(base, ts, i as int, doc_id as nat);
            }
            let len = self.index.len();
            let slot = self.term_map.get_or_insert(terms[i].clone(), len);
            if slot == len {
                self.index.push(InvertedList::new());
            }
            let seen = match self.index[slot].last_doc_id() {
                Some(last) => last == doc_id,
                None => false,
            };
            if !seen {
                self.index[slot].insert(doc_id);
            }
            i = i + 1;
        }
        assert(ts.take(i as int) =~= ts);
        assert(self@.docs =~= old(self)@.docs.push(doc@));
    }

    /// Adds a document: the tokenizer splits it into terms, the document gets
    /// the next identifier, and the list of each of its terms gains it once.
    pub fn insert_doc(&mut self, doc: Doc)
        requires
            old(self).wf(),
        ensures
            final(self).wf(),
            final(self).tokenizer() == old(self).tokenizer(),
            exists|terms: Vec<Term>|
                call_ensures(old(self).tokenizer(), (&doc,), terms) && final(self)@ == old(
                    self,
                )@.with_document(doc@, term_views(terms@)),
    {
        let terms = (self.tokenizer)(&doc);
        self.insert_terms(doc, terms);
    }

    /// Answers a request: the numbers of the documents that it asks for, in
    /// ascending order, or an error if one of its terms was never indexed.
    pub fn query(&self, query: Query) -> (r: Result<Vec<DocId>, QueryError>)
        requires
            self.wf(),
        ensures
            self@.answers(
                query,
                match r {
                    Ok(numbers) => Ok(numbers@),
                    Err(e) => Err(e),
                },
            ),
    {
        let (l, r) = match &query {
            Query::Or(l, r) => (l, r),
            Query::And(l, r) => (l, r),
            Query::AndNot(l, r) => (l, r),
        };
        let left = match self.term_pos(l) {
            Some(p) => p,
            None => {
                return Err(QueryError::UnknownTerm);
            },
        };
        let right = match self.term_pos(r) {
            Some(p) => p,
            None => {
                return Err(QueryError::UnknownTerm);
            },
        };
        let ghost a = self.index@[left as int]@;
        let ghost b = self.index@[right as int]@;
        let ghost total: usize = self.docs.len();
        proof {
            assert(strictly_ascending(a) && strictly_ascending(b));
            lemma_strictly_ascending_occurrences(a);
            lemma_strictly_ascending_occurrences(b);
            assert forall|v: nat| a.contains(v) || b.contains(v) implies v < usize::MAX by {
                if a.contains(v) {
                    let i = choose|i: int| 0 <= i < a.len() && a[i] == v;
                    assert(self.index@[left as int]@[i] < total);
                } else {
                    let i = choose|i: int| 0 <= i < b.len() && b[i] == v;
                    assert(self.index@[right as int]@[i] < total);
                }
            }
        }
        let numbers = match &query {
            Query::Or(_, _) => {
                let merged = self.index[left].iter().or(self.index[right].iter());
                proof {
                    let m = merge_or(a, b);
                    lemma_or_is_union(a, b);
                    assert forall|i: int| 0 <= i < m.len() implies m[i] < usize::MAX by {
                        assert(m.contains(m[i]));
                        lemma_or_within(a, b, m[i]);
                    }
                }
                external_ids(merged)
            },
            Query::And(_, _) => {
                let merged = self.index[left].iter().and(self.index[right].iter());
                proof {
                    let m = merge_and(a, b);
                    lemma_and_is_intersection(a, b);
                    assert forall|i: int| 0 <= i < m.len() implies m[i] < usize::MAX by {
                        assert(m.contains(m[i]));
                        lemma_and_within(a, b, m[i]);
                    }
                }
                external_ids(merged)
            },
            Query::AndNot(_, _) => {
                let merged = self.index[left].iter().and_not(self.index[right].iter());
                proof {
                    let m = merge_and_not(a, b);
                    lemma_and_not_is_difference(a, b);
                    lemma_and_not_strictly_ascending(a, b);
                    assert forall|i: int| 0 <= i < m.len() implies m[i] < usize::MAX by {
                        assert(m.contains(m[i]));
                        lemma_and_not_within(a, b, m[i]);
                    }
                }
                external_ids(merged)
            },
        };
        Ok(numbers)
    }

    /// Lists the index: every known term, in the order of terms, with the
    /// numbers of the documents in which it occurs.
    pub fn listing(&self) -> (r: Vec<(Term, Vec<DocId>)>)
        requires
            self.wf(),
        ensures
            self@.lists(listing_view(r@)),
    {
        let ghost entries = self.term_map.ordered();
        let mut rows: Vec<(Term, Vec<DocId>)> = Vec::new();
        let n = self.term_map.len();
        let ghost total: usize = self.docs.len();
        let mut i: usize = 0;
        while i < n
            invariant
                self.wf(),
                total == self.docs@.len(),
                entries == self.term_map.ordered(),
                n == entries.len(),
                i <= n,
                rows@.len() == i,
                forall|k: int|
                    0 <= k < i ==> {
                        &&& (#[trigger] rows@[k]).0@ == entries[k].0
                        &&& forall|j: int| 0 <= j < rows@[k].1@.len() ==> rows@[k].1@[j] >= 1
                        &&& internal_ids(rows@[k].1@) == self@.postings[entries[k].0]
                    },
            decreases n - i,
        {
            proof {
                lemma_place_unique(entries, i as int);
            }
            let term = self.term_map.term_at(i).clone();
            let slot = self.term_map.slot_at(i);
            assert(self.term_map@.contains_key(entries[i as int].0));
            assert(self.term_map@[entries[i as int].0] == slot);
            let ghost list = self.index@[slot as int]@;
            proof {
                assert(strictly_ascending(list));
                assert forall|j: int| 0 <= j < list.len() implies list[j] < usize::MAX by {
                    assert(self.index@[slot as int]@[j] < total);
                }
            }
            let numbers = external_ids(self.index[slot].iter());
            rows.push((term, numbers));
            i = i + 1;
        }
        proof {
            let view = listing_view(rows@);
            assert forall|k: int, j: int| 0 <= k < j < view.len() implies term_lt(
                #[trigger] view[k].0,
                #[trigger] view[j].0,
            ) by {
                assert(rows@[k].0@ == entries[k].0);
                assert(rows@[j].0@ == entries[j].0);
            }
            assert forall|k: int| 0 <= k < view.len() implies {
                &&& forall|j: int| 0 <= j < view[k].1.len() ==> view[k].1[j] >= 1
                &&& internal_ids((#[trigger] view[k]).1) == self@.postings[view[k].0]
            } by {
                assert(rows@[k].0@ == entries[k].0);
            }
            assert forall|t: Seq<char>| self@.known(t) <==> has_term(view, t) by {
                if self@.known(t) {
                    let k = place_of(entries, t);
                    assert(rows@[k].0@ == entries[k].0);
                    assert(view[k].0 == t);
                }
                if has_term(view, t) {
                    let k = place_of(view, t);
                    assert(rows@[k].0@ == entries[k].0);
                    lemma_place_unique(entries, k);
                }
            }
        }
        rows
    }

    /// The index as text: a line for every known term, in the order of terms,
    /// with the numbers of the documents in which it occurs.
    pub fn to_string(&self) -> (r: String)
        requires
            self.wf(),
        ensures
            exists|rows: Seq<(Seq<char>, Seq<usize>)>| self@.lists(rows) && r@ == rendered(rows),
    {
        let rows = self.listing();
        render(&rows)
    }
}

} // verus!
