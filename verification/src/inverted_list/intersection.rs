//! The merge joins that narrow a posting sequence: AND and AND-NOT.

use vstd::prelude::*;
use crate::inverted_list::{pending, Posting, PostingIterator};
use crate::merge::{
    ascending, lemma_and_ascending, lemma_and_not_ascending, merge_and, merge_and_not,
    strictly_ascending,
};
use crate::set_laws::{
    is_difference_of, is_intersection_of, lemma_and_meaning, lemma_and_not_meaning,
    lemma_and_not_strictly_ascending, lemma_and_strictly_ascending,
};

verus! {

/// The postings that two posting sequences share.
pub struct And<'a, L, R> {
    left: L,
    right: R,
    left_slot: Option<&'a Posting>,
    right_slot: Option<&'a Posting>,
}

impl<'a, L, R> And<'a, L, R> where L: PostingIterator<'a>, R: PostingIterator<'a> {
    /// Joins two fresh cursors.
    pub fn new(left: L, right: R) -> (r: Self)
        requires
            left.wf(),
            right.wf(),
        ensures
            r.wf(),
            r.remaining() == merge_and(left.remaining(), right.remaining()),
            is_intersection_of(r.remaining(), left.remaining(), right.remaining()),
            strictly_ascending(left.remaining()) || strictly_ascending(right.remaining())
                ==> strictly_ascending(r.remaining()),
    {
        proof {
            left.lemma_remaining_ascending();
            right.lemma_remaining_ascending();
            lemma_and_meaning(left.remaining(), right.remaining());
            if strictly_ascending(left.remaining()) || strictly_ascending(right.remaining()) {
                lemma_and_strictly_ascending(left.remaining(), right.remaining());
            }
        }
        Self { left, right, left_slot: None, right_slot: None }
    }

    /// Moves the head of the left cursor into its slot.
    fn fill_left(&mut self)
        requires
            old(self).left.wf(),
        ensures
            final(self).left.wf(),
            final(self).right == old(self).right,
            final(self).right_slot == old(self).right_slot,
            pending(final(self).left_slot, final(self).left.remaining()) == old(
                self,
            ).left.remaining(),
            final(self).left_slot is None ==> final(self).left.remaining().len() == 0,
    {
        self.left_slot = self.left.next();
        assert(pending(self.left_slot, self.left.remaining()) =~= old(self).left.remaining());
    }

    /// Moves the head of the right cursor into its slot.
    fn fill_right(&mut self)
        requires
            old(self).right.wf(),
        ensures
            final(self).right.wf(),
            final(self).left == old(self).left,
            final(self).left_slot == old(self).left_slot,
            pending(final(self).right_slot, final(self).right.remaining()) == old(
                self,
            ).right.remaining(),
            final(self).right_slot is None ==> final(self).right.remaining().len() == 0,
    {
        self.right_slot = self.right.next();
        assert(pending(self.right_slot, self.right.remaining()) =~= old(self).right.remaining());
    }
}

impl<'a, L, R> PostingIterator<'a> for And<'a, L, R> where
    L: PostingIterator<'a>,
    R: PostingIterator<'a>,
 {
    closed spec fn wf(&self) -> bool {
        self.left.wf() && self.right.wf()
    }

    closed spec fn remaining(&self) -> Seq<nat> {
        merge_and(self.left.remaining(), self.right.remaining())
    }

    proof fn lemma_remaining_ascending(&self) {
        self.left.lemma_remaining_ascending();
        lemma_and_ascending(self.left.remaining(), self.right.remaining());
    }

    fn next(&mut self) -> (r: Option<&'a Posting>) {
        self.fill_left();
        self.fill_right();
        loop
            invariant
                self.left.wf(),
                self.right.wf(),
                self.left_slot is None ==> self.left.remaining().len() == 0,
                self.right_slot is None ==> self.right.remaining().len() == 0,
                merge_and(
                    pending(self.left_slot, self.left.remaining()),
                    pending(self.right_slot, self.right.remaining()),
                ) == old(self).remaining(),
            decreases
                    pending(self.left_slot, self.left.remaining()).len() + pending(
                        self.right_slot,
                        self.right.remaining(),
                    ).len(),
        {
            let ghost l = pending(self.left_slot, self.left.remaining());
            let ghost r = pending(self.right_slot, self.right.remaining());
            match (self.left_slot, self.right_slot) {
                (Some(left), Some(right)) => {
                    assert(l.skip(1) =~= self.left.remaining());
                    assert(r.skip(1) =~= self.right.remaining());
                    if left.doc_id == right.doc_id {
                        assert(self.remaining() =~= old(self).remaining().skip(1));
                        return Some(left);
                    }
                    if left.doc_id < right.doc_id {
                        self.fill_left();
                        continue ;
                    }
                    if left.doc_id > right.doc_id {
                        self.fill_right();
                        continue ;
                    }
                },
                (_, None) => return None,
                (None, _) => return None,
            }
        }
    }
}

/// The postings of the left posting sequence that the right one lacks.
pub struct AndNot<'a, L, R> {
    left: L,
    right: R,
    left_slot: Option<&'a Posting>,
    right_slot: Option<&'a Posting>,
}

impl<'a, L, R> AndNot<'a, L, R> where L: PostingIterator<'a>, R: PostingIterator<'a> {
    /// Joins two fresh cursors.
    pub fn new(left: L, right: R) -> (r: Self)
        requires
            left.wf(),
            right.wf(),
        ensures
            r.wf(),
            r.remaining() == merge_and_not(left.remaining(), right.remaining()),
            is_difference_of(r.remaining(), left.remaining(), right.remaining()),
            strictly_ascending(left.remaining()) ==> strictly_ascending(r.remaining()),
    {
        proof {
            left.lemma_remaining_ascending();
            right.lemma_remaining_ascending();
            lemma_and_not_meaning(left.remaining(), right.remaining());
            if strictly_ascending(left.remaining()) {
                lemma_and_not_strictly_ascending(left.remaining(), right.remaining());
            }
        }
        Self { left, right, left_slot: None, right_slot: None }
    }

    /// What the left side has yet to give: its slot, then its cursor.
    spec fn left_pending(&self) -> Seq<nat> {
        pending(self.left_slot, self.left.remaining())
    }

    /// What the right side has yet to give: its slot, then its cursor.
    spec fn right_pending(&self) -> Seq<nat> {
        pending(self.right_slot, self.right.remaining())
    }

    /// Moves the head of the left cursor into its slot and hands out what the
    /// slot held.
    fn fill_left(&mut self) -> (r: Option<&'a Posting>)
        requires
            old(self).left.wf(),
        ensures
            r == old(self).left_slot,
            final(self).left.wf(),
            final(self).right == old(self).right,
            final(self).right_slot == old(self).right_slot,
            final(self).left_pending() == old(self).left.remaining(),
            ascending(final(self).left_pending()),
            final(self).left_slot is None ==> final(self).left.remaining().len() == 0,
    {
        proof {
            self.left.lemma_remaining_ascending();
        }
        let prev = self.left_slot;
        self.left_slot = self.left.next();
        assert(self.left_pending() =~= old(self).left.remaining());
        prev
    }

    /// Moves the head of the right cursor into its slot and hands out what the
    /// slot held.
    fn fill_right(&mut self) -> (r: Option<&'a Posting>)
        requires
            old(self).right.wf(),
        ensures
            r == old(self).right_slot,
            final(self).right.wf(),
            final(self).left == old(self).left,
            final(self).left_slot == old(self).left_slot,
            final(self).right_pending() == old(self).right.remaining(),
            ascending(final(self).right_pending()),
            final(self).right_slot is None ==> final(self).right.remaining().len() == 0,
    {
        proof {
            self.right.lemma_remaining_ascending();
        }
        let prev = self.right_slot;
        self.right_slot = self.right.next();
        assert(self.right_pending() =~= old(self).right.remaining());
        prev
    }
}

impl<'a, L, R> PostingIterator<'a> for AndNot<'a, L, R> where
    L: PostingIterator<'a>,
    R: PostingIterator<'a>,
 {
    closed spec fn wf(&self) -> bool {
        &&& self.left.wf()
        &&& self.right.wf()
        &&& ascending(self.left_pending())
        &&& ascending(self.right_pending())
    }

    closed spec fn remaining(&self) -> Seq<nat> {
        merge_and_not(self.left_pending(), self.right_pending())
    }

    proof fn lemma_remaining_ascending(&self) {
        lemma_and_not_ascending(self.left_pending(), self.right_pending());
    }

    fn next(&mut self) -> (r: Option<&'a Posting>) {
        if self.left_slot.is_none() {
            self.fill_left();
        }
        if self.right_slot.is_none() {
            self.fill_right();
        }
        loop
            invariant
                self.wf(),
                self.left_slot is None ==> self.left.remaining().len() == 0,
                self.right_slot is None ==> self.right.remaining().len() == 0,
                self.remaining() == old(self).remaining(),
            decreases self.left_pending().len() + self.right_pending().len(),
        {
            let ghost l = self.left_pending();
            let ghost r = self.right_pending();
            match (self.left_slot, self.right_slot) {
                (Some(left), Some(right)) => {
                    assert(l.skip(1) =~= self.left.remaining());
                    assert(r.skip(1) =~= self.right.remaining());
                    if left.doc_id == right.doc_id {
                        self.fill_left();
                        self.fill_right();
                        continue ;
                    }
                    if left.doc_id < right.doc_id {
                        let out = self.fill_left();
                        assert(self.remaining() =~= old(self).remaining().skip(1));
                        return out;
                    }
                    if left.doc_id > right.doc_id {
                        self.fill_right();
                        continue ;
                    }
                },
                (Some(_), None) => {
                    assert(l.skip(1) =~= self.left.remaining());
                    let out = self.fill_left();
                    assert(self.remaining() =~= old(self).remaining().skip(1));
                    return out;
                },
                (None, _) => return None,
            }
        }
    }
}

} // verus!
