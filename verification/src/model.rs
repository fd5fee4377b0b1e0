//! What an index holds, as mathematics: its documents, its postings, and what
//! it answers to a request.

use vstd::prelude::*;
use crate::inverted_list::DocId;
use crate::merge::strictly_ascending;
use crate::set_laws::lemma_strictly_ascending_unique;
use crate::term_map::{has_term, lemma_sorted_unique, sorted_terms};
use crate::{Query, QueryError, Term};

verus! {

/// The terms of a tokenized document, as sequences of characters.
pub open spec fn term_views(terms: Seq<String>) -> Seq<Seq<char>> {
    Seq::new(terms.len(), |i: int| terms[i]@)
}

/// The postings after a document with the identifier `id` was indexed under
/// each of `terms`: every list of such a term, begun empty if the term is new,
/// has gained `id` once, and the other lists are as they were.
pub open spec fn posted(
    postings: Map<Seq<char>, Seq<nat>>,
    terms: Seq<Seq<char>>,
    id: nat,
) -> Map<Seq<char>, Seq<nat>> {
    Map::new(
        |t: Seq<char>| postings.contains_key(t) || terms.contains(t),
        |t: Seq<char>|
            if terms.contains(t) {
                (if postings.contains_key(t) {
                    postings[t]
                } else {
                    Seq::empty()
                }).push(id)
            } else {
                postings[t]
            },
    )
}

/// The first `i + 1` terms hold what the first `i` hold, and the term at place `i`.
pub proof fn lemma_take_contains(ts: Seq<Seq<char>>, i: int, u: Seq<char>)
    requires
        0 <= i < ts.len(),
    ensures
        ts.take(i + 1).contains(u) <==> (ts.take(i).contains(u) || ts[i] == u),
{
    let shorter = ts.take(i);
    let longer = ts.take(i + 1);
    if longer.contains(u) {
        let j = choose|j: int| 0 <= j < longer.len() && longer[j] == u;
        if j < i {
            assert(shorter[j] == u);
        }
    }
    if shorter.contains(u) {
        let j = choose|j: int| 0 <= j < shorter.len() && shorter[j] == u;
        assert(longer[j] == u);
    }
    if ts[i] == u {
        assert(longer[i] == u);
    }
}

/// Indexing a document under one more term: a list that already ends with the
/// document stays, another list gains it, and a new term gets a list of its own.
pub proof fn lemma_posted_step(
    base: Map<Seq<char>, Seq<nat>>,
    ts: Seq<Seq<char>>,
    i: int,
    id: nat,
)
    requires
        0 <= i < ts.len(),
        forall|t: Seq<char>, j: int|
            base.contains_key(t) && 0 <= j < base[t].len() ==> #[trigger] base[t][j] < id,
    ensures
        ({
            let cur = posted(base, ts.take(i), id);
            let next = posted(base, ts.take(i + 1), id);
            let t = ts[i];
            &&& cur.contains_key(t) && cur[t].len() > 0 && cur[t].last() == id ==> next == cur
            &&& cur.contains_key(t) && !(cur[t].len() > 0 && cur[t].last() == id) ==> next
                == cur.insert(t, cur[t].push(id))
            &&& !cur.contains_key(t) ==> next == cur.insert(t, seq![id])
        }),
{
    let cur = posted(base, ts.take(i), id);
    let next = posted(base, ts.take(i + 1), id);
    let t = ts[i];
    assert forall|u: Seq<char>|
        ts.take(i + 1).contains(u) <==> (ts.take(i).contains(u) || t == u) by {
        lemma_take_contains(ts, i, u);
    }
    if ts.take(i).contains(t) {
        assert(next =~= cur);
    } else if base.contains_key(t) {
        if base[t].len() > 0 {
            assert(base[t][base[t].len() - 1] < id);
        }
        assert(next =~= cur.insert(t, cur[t].push(id)));
    } else {
        assert(Seq::<nat>::empty().push(id) =~= seq![id]);
        assert(next =~= cur.insert(t, seq![id]));
    }
}

/// The identifiers that stand behind the numbers by which documents are known
/// outside: each number is one more than its identifier.
pub open spec fn internal_ids(numbers: Seq<usize>) -> Seq<nat> {
    Seq::new(numbers.len(), |i: int| (numbers[i] - 1) as nat)
}

/// The rows of a listing, each a term with the numbers of its documents.
pub open spec fn listing_view(rows: Seq<(Term, Vec<DocId>)>) -> Seq<(Seq<char>, Seq<usize>)> {
    Seq::new(rows.len(), |i: int| (rows[i].0@, rows[i].1@))
}

/// What an index holds: the documents in order of insertion, and for each
/// known term the identifiers of the documents in which it occurs.
pub struct IndexView {
    pub docs: Seq<Seq<char>>,
    pub postings: Map<Seq<char>, Seq<nat>>,
}

impl IndexView {
    /// Every postings list names a document, ascends strictly, and names only
    /// documents that exist.
    pub open spec fn wf(self) -> bool {
        forall|t: Seq<char>| #[trigger]
            self.postings.contains_key(t) ==> {
                &&& self.postings[t].len() > 0
                &&& strictly_ascending(self.postings[t])
                &&& forall|i: int|
                    0 <= i < self.postings[t].len() ==> self.postings[t][i] < self.docs.len()
            }
    }

    /// The term was indexed.
    pub open spec fn known(self, t: Seq<char>) -> bool {
        self.postings.contains_key(t)
    }

    /// The document with the identifier `d` is one that the request asks for.
    pub open spec fn matches(self, q: Query, d: nat) -> bool {
        let l = self.postings[q.left()].contains(d);
        let r = self.postings[q.right()].contains(d);
        match q {
            Query::Or(_, _) => l || r,
            Query::And(_, _) => l && r,
            Query::AndNot(_, _) => l && !r,
        }
    }

    /// `r` is what the index answers to the request: the numbers of the
    /// documents asked for, strictly ascending, if both terms are known, and
    /// an error if one is not.
    pub open spec fn answers(self, q: Query, r: Result<Seq<usize>, QueryError>) -> bool {
        match r {
            Ok(numbers) => {
                &&& self.known(q.left())
                &&& self.known(q.right())
                &&& forall|i: int| 0 <= i < numbers.len() ==> numbers[i] >= 1
                &&& strictly_ascending(internal_ids(numbers))
                &&& forall|d: nat| internal_ids(numbers).contains(d) <==> self.matches(q, d)
            },
            Err(QueryError::UnknownTerm) => !(self.known(q.left()) && self.known(q.right())),
        }
    }

    /// `rows` lists the index: every known term once, in the order of terms,
    /// with the numbers of the documents in which it occurs.
    pub open spec fn lists(self, rows: Seq<(Seq<char>, Seq<usize>)>) -> bool {
        &&& sorted_terms(rows)
        &&& forall|t: Seq<char>| self.known(t) <==> has_term(rows, t)
        &&& forall|i: int|
            0 <= i < rows.len() ==> {
                &&& forall|k: int| 0 <= k < rows[i].1.len() ==> rows[i].1[k] >= 1
                &&& internal_ids((#[trigger] rows[i]).1) == self.postings[rows[i].0]
            }
    }

    /// The index after one more document, with the terms that the tokenizer
    /// made of it.
    pub open spec fn with_document(self, doc: Seq<char>, terms: Seq<Seq<char>>) -> IndexView {
        IndexView {
            docs: self.docs.push(doc),
            postings: posted(self.postings, terms, self.docs.len()),
        }
    }
}

/// Numbers that stand for the same identifiers are the same numbers.
pub proof fn lemma_internal_ids_injective(n1: Seq<usize>, n2: Seq<usize>)
    requires
        forall|i: int| 0 <= i < n1.len() ==> n1[i] >= 1,
        forall|i: int| 0 <= i < n2.len() ==> n2[i] >= 1,
        internal_ids(n1) == internal_ids(n2),
    ensures
        n1 == n2,
{
    assert(n1.len() == internal_ids(n1).len());
    assert(n2.len() == internal_ids(n2).len());
    assert forall|i: int| 0 <= i < n1.len() implies n1[i] == n2[i] by {
        assert(internal_ids(n1)[i] == n1[i] - 1);
        assert(internal_ids(n2)[i] == n2[i] - 1);
    }
    assert(n1 =~= n2);
}

/// An index answers a request in one way only: whenever it is asked, as long
/// as it holds the same, the answer is the same.
pub proof fn lemma_answer_unique(
    index: IndexView,
    q: Query,
    r1: Result<Seq<usize>, QueryError>,
    r2: Result<Seq<usize>, QueryError>,
)
    requires
        index.answers(q, r1),
        index.answers(q, r2),
    ensures
        r1 == r2,
{
    match (r1, r2) {
        (Ok(n1), Ok(n2)) => {
            lemma_strictly_ascending_unique(internal_ids(n1), internal_ids(n2));
            lemma_internal_ids_injective(n1, n2);
        },
        (Err(e1), Err(e2)) => {
            assert(e1 == e2);
        },
        _ => {},
    }
}

/// An index is listed in one way only.
pub proof fn lemma_listing_unique(
    index: IndexView,
    rows1: Seq<(Seq<char>, Seq<usize>)>,
    rows2: Seq<(Seq<char>, Seq<usize>)>,
)
    requires
        index.lists(rows1),
        index.lists(rows2),
    ensures
        rows1 == rows2,
{
    assert forall|i: int, j: int|
        0 <= i < rows1.len() && 0 <= j < rows2.len() && (#[trigger] rows1[i]).0 == (
        #[trigger] rows2[j]).0 implies rows1[i].1 == rows2[j].1 by {
        lemma_internal_ids_injective(rows1[i].1, rows2[j].1);
    }
    lemma_sorted_unique(rows1, rows2);
}

} // verus!
