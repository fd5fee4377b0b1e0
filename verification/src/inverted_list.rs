//! Postings lists and the cursors that walk them.

pub mod intersection;
pub mod union;

use vstd::prelude::*;
use crate::inverted_list::intersection::{And, AndNot};
use crate::inverted_list::union::Or;
use crate::merge::{
    ascending, lemma_ascending_push, lemma_strictly_ascending_push, merge_and, merge_and_not,
    merge_or, strictly_ascending,
};
use crate::set_laws::{is_difference_of, is_intersection_of, is_union_of};

verus! {

/// Identifier of a document: its position in the order of insertion.
pub type DocId = usize;

/// One reference to a document.
#[derive(Debug, PartialEq)]
pub struct Posting {
    pub doc_id: usize,
}

/// The identifiers of a sequence of postings, as mathematical naturals.
pub open spec fn doc_ids(s: Seq<Posting>) -> Seq<nat> {
    Seq::new(s.len(), |i: int| s[i].doc_id as nat)
}

/// What a side of a merge join has yet to give: the posting in its slot, if
/// any, followed by what its cursor has yet to yield.
pub open spec fn pending(slot: Option<&Posting>, rest: Seq<nat>) -> Seq<nat> {
    match slot {
        Some(p) => seq![p.doc_id as nat] + rest,
        None => rest,
    }
}

/// The postings of one term, in the order in which they were appended.
pub struct InvertedList {
    pub list: Vec<Posting>,
}

impl View for InvertedList {
    type V = Seq<nat>;

    open spec fn view(&self) -> Seq<nat> {
        doc_ids(self.list@)
    }
}

/// A producer of postings, one at a time, in ascending order of their identifiers.
pub trait PostingIterator<'a>: Sized {
    /// The invariant of the cursor.
    spec fn wf(&self) -> bool;

    /// The identifiers that the cursor has yet to yield, next one first.
    spec fn remaining(&self) -> Seq<nat>;

    /// What is yet to come is in ascending order.
    proof fn lemma_remaining_ascending(&self)
        requires
            self.wf(),
        ensures
            ascending(self.remaining()),
    ;

    /// Yields the next posting, or `None` once the cursor is exhausted.
    fn next(&mut self) -> (r: Option<&'a Posting>)
        requires
            old(self).wf(),
        ensures
            final(self).wf(),
            match r {
                Some(p) => old(self).remaining().len() > 0
                    && p.doc_id as nat == old(self).remaining()[0]
                    && final(self).remaining() == old(self).remaining().skip(1),
                None => old(self).remaining().len() == 0 && final(self).remaining().len() == 0,
            },
    ;
}

impl InvertedList {
    /// The invariant of the list: its identifiers ascend.
    pub open spec fn wf(&self) -> bool {
        ascending(self@)
    }

    /// A list without postings.
    pub fn new() -> (r: Self)
        ensures
            r@ == Seq::<nat>::empty(),
            r.wf(),
    {
        let r = Self { list: Vec::new() };
        assert(r@ =~= Seq::<nat>::empty());
        r
    }

    /// Appends a posting for `doc_id`, which no posting of the list may exceed.
    pub fn insert(&mut self, doc_id: DocId)
        requires
            old(self)@.len() > 0 ==> doc_id >= old(self)@.last(),
        ensures
            final(self)@ == old(self)@.push(doc_id as nat),
            old(self).wf() ==> final(self).wf(),
            strictly_ascending(old(self)@) && (old(self)@.len() > 0 ==> doc_id > old(self)@.last())
                ==> strictly_ascending(final(self)@),
    {
        self.list.push(Posting { doc_id });
        proof {
            assert(self@ =~= old(self)@.push(doc_id as nat));
            if old(self).wf() {
                lemma_ascending_push(old(self)@, doc_id as nat);
            }
            if strictly_ascending(old(self)@) && (old(self)@.len() > 0 ==> doc_id > old(self)@.last()) {
                lemma_strictly_ascending_push(old(self)@, doc_id as nat);
            }
        }
    }

    /// The identifier of the last posting, if there is one.
    pub fn last_doc_id(&self) -> (r: Option<DocId>)
        ensures
            match r {
                Some(id) => self@.len() > 0 && id as nat == self@.last(),
                None => self@.len() == 0,
            },
    {
        let n = self.list.len();
        if n > 0 {
            Some(self.list[n - 1].doc_id)
        } else {
            None
        }
    }

    /// A fresh cursor before the first posting of the list.
    pub fn iter(&self) -> (r: InvertedListIterator<'_>)
        requires
            self.wf(),
        ensures
            r.wf(),
            r.remaining() == self@,
    {
        let r = InvertedListIterator { list: &self.list, pos: 0 };
        assert(r.remaining() =~= self@);
        r
    }
}

/// A cursor over one postings list: the list, and how many postings were read.
pub struct InvertedListIterator<'a> {
    list: &'a Vec<Posting>,
    pos: usize,
}

impl<'a> PostingIterator<'a> for InvertedListIterator<'a> {
    closed spec fn wf(&self) -> bool {
        self.pos <= self.list.len() && ascending(doc_ids(self.list@))
    }

    closed spec fn remaining(&self) -> Seq<nat> {
        doc_ids(self.list@).skip(self.pos as int)
    }

    proof fn lemma_remaining_ascending(&self) {
    }

    fn next(&mut self) -> (r: Option<&'a Posting>) {
        if self.pos < self.list.len() {
            let p = &self.list[self.pos];
            self.pos = self.pos + 1;
            assert(self.remaining() =~= old(self).remaining().skip(1));
            Some(p)
        } else {
            None
        }
    }
}

/// The joins of two posting sequences, as methods of the left one.
pub trait SetMethods<'a>: PostingIterator<'a> + Sized {
    /// The postings that `self` and `other` share.
    fn and<I>(self, other: I) -> (r: And<'a, Self, I>) where I: PostingIterator<'a>
        requires
            self.wf(),
            other.wf(),
        ensures
            r.wf(),
            r.remaining() == merge_and(self.remaining(), other.remaining()),
            is_intersection_of(r.remaining(), self.remaining(), other.remaining()),
            strictly_ascending(self.remaining()) || strictly_ascending(other.remaining())
                ==> strictly_ascending(r.remaining()),
    {
        And::new(self, other)
    }

    /// The postings of `self` that `other` lacks.
    fn and_not<I>(self, other: I) -> (r: AndNot<'a, Self, I>) where I: PostingIterator<'a>
        requires
            self.wf(),
            other.wf(),
        ensures
            r.wf(),
            r.remaining() == merge_and_not(self.remaining(), other.remaining()),
            is_difference_of(r.remaining(), self.remaining(), other.remaining()),
            strictly_ascending(self.remaining()) ==> strictly_ascending(r.remaining()),
    {
        AndNot::new(self, other)
    }

    /// The postings that `self` or `other` holds; one that both hold is yielded once.
    fn or<I>(self, other: I) -> (r: Or<'a, Self, I>) where I: PostingIterator<'a>
        requires
            self.wf(),
            other.wf(),
        ensures
            r.wf(),
            r.remaining() == merge_or(self.remaining(), other.remaining()),
            is_union_of(r.remaining(), self.remaining(), other.remaining()),
            strictly_ascending(self.remaining()) && strictly_ascending(other.remaining())
                ==> strictly_ascending(r.remaining()),
    {
        Or::new(self, other)
    }
}

impl<'a, I> SetMethods<'a> for I where I: PostingIterator<'a> {

}

/// The identifiers of a sequence of borrowed postings.
pub open spec fn borrowed_doc_ids(s: Seq<&Posting>) -> Seq<nat> {
    Seq::new(s.len(), |i: int| s[i].doc_id as nat)
}

/// Drains a posting sequence: every posting that it has yet to yield, in order.
pub fn collect<'a, I>(iter: I) -> (r: Vec<&'a Posting>) where I: PostingIterator<'a>
    requires
        iter.wf(),
    ensures
        borrowed_doc_ids(r@) == iter.remaining(),
{
    let ghost all = iter.remaining();
    let mut cursor = iter;
    let mut out: Vec<&'a Posting> = Vec::new();
    loop
        invariant
            cursor.wf(),
            all == iter.remaining(),
            out@.len() <= all.len(),
            cursor.remaining() == all.skip(out@.len() as int),
            borrowed_doc_ids(out@) == all.take(out@.len() as int),
        decreases cursor.remaining().len(),
    {
        let ghost before = out@;
        match cursor.next() {
            Some(p) => {
                out.push(p);
                assert(all.skip(before.len() as int).skip(1) =~= all.skip(before.len() as int + 1));
                assert(borrowed_doc_ids(out@) =~= all.take(out@.len() as int)) by {
                    assert forall|i: int| 0 <= i < out@.len() implies borrowed_doc_ids(out@)[i]
                        == all[i] by {
                        if i < before.len() {
                            assert(borrowed_doc_ids(before)[i] == all.take(before.len() as int)[i]);
                        }
                    }
                }
            },
            None => {
                assert(all.skip(out@.len() as int).len() == all.len() - out@.len());
                assert(all.take(out@.len() as int) =~= all);
                return out;
            },
        }
    }
}

} // verus!
