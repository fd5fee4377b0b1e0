//! The merge join that widens a posting sequence: OR.

use vstd::prelude::*;
use crate::inverted_list::{pending, Posting, PostingIterator};
use crate::merge::{ascending, lemma_or_ascending, merge_or, strictly_ascending};
use crate::set_laws::{is_union_of, lemma_or_is_union, lemma_or_meaning};

verus! {

/// The postings that either of two posting sequences holds; one that both hold
/// is yielded once.
pub struct Or<'a, L, R> {
    left: L,
    right: R,
    left_slot: Option<&'a Posting>,
    right_slot: Option<&'a Posting>,
}

impl<'a, L, R> Or<'a, L, R> where L: PostingIterator<'a>, R: PostingIterator<'a> {
    /// Joins two fresh cursors.
    pub fn new(left: L, right: R) -> (r: Self)
        requires
            left.wf(),
            right.wf(),
        ensures
            r.wf(),
            r.remaining() == merge_or(left.remaining(), right.remaining()),
            is_union_of(r.remaining(), left.remaining(), right.remaining()),
            strictly_ascending(left.remaining()) && strictly_ascending(right.remaining())
                ==> strictly_ascending(r.remaining()),
    {
        proof {
            left.lemma_remaining_ascending();
            right.lemma_remaining_ascending();
            lemma_or_meaning(left.remaining(), right.remaining());
            if strictly_ascending(left.remaining()) && strictly_ascending(right.remaining()) {
                lemma_or_is_union(left.remaining(), right.remaining());
            }
        }
        Self { left, right, left_slot: None, right_slot: None }
    }

    /// What the left side has yet to give: its slot, then its cursor.
    spec fn left_pending(&self) -> Seq<nat> {
        pending(self.left_slot, self.left.remaining())
    }

    /// What the right side has yet to give: its slot, then its cursor.
    spec fn right_pending(&self) -> Seq<nat> {
        pending(self.right_slot, self.right.remaining())
    }

    /// Moves the head of the left cursor into its slot and hands out what the
    /// slot held.
    fn fill_left(&mut self) -> (r: Option<&'a Posting>)
        requires
            old(self).left.wf(),
        ensures
            r == old(self).left_slot,
            final(self).left.wf(),
            final(self).right == old(self).right,
            final(self).right_slot == old(self).right_slot,
            final(self).left_pending() == old(self).left.remaining(),
            ascending(final(self).left_pending()),
            final(self).left_slot is None ==> final(self).left.remaining().len() == 0,
    {
        proof {
            self.left.lemma_remaining_ascending();
        }
        let prev = self.left_slot;
        self.left_slot = self.left.next();
        assert(self.left_pending() =~= old(self).left.remaining());
        prev
    }

    /// Moves the head of the right cursor into its slot and hands out what the
    /// slot held.
    fn fill_right(&mut self) -> (r: Option<&'a Posting>)
        requires
            old(self).right.wf(),
        ensures
            r == old(self).right_slot,
            final(self).right.wf(),
            final(self).left == old(self).left,
            final(self).left_slot == old(self).left_slot,
            final(self).right_pending() == old(self).right.remaining(),
            ascending(final(self).right_pending()),
            final(self).right_slot is None ==> final(self).right.remaining().len() == 0,
    {
        proof {
            self.right.lemma_remaining_ascending();
        }
        let prev = self.right_slot;
        self.right_slot = self.right.next();
        assert(self.right_pending() =~= old(self).right.remaining());
        prev
    }
}

impl<'a, L, R> PostingIterator<'a> for Or<'a, L, R> where
    L: PostingIterator<'a>,
    R: PostingIterator<'a>,
 {
    closed spec fn wf(&self) -> bool {
        &&& self.left.wf()
        &&& self.right.wf()
        &&& ascending(self.left_pending())
        &&& ascending(self.right_pending())
    }

    closed spec fn remaining(&self) -> Seq<nat> {
        merge_or(self.left_pending(), self.right_pending())
    }

    proof fn lemma_remaining_ascending(&self) {
        lemma_or_ascending(self.left_pending(), self.right_pending());
    }

    fn next(&mut self) -> (r: Option<&'a Posting>) {
        if self.left_slot.is_none() {
            self.fill_left();
        }
        if self.right_slot.is_none() {
            self.fill_right();
        }
        let ghost l = self.left_pending();
        let ghost r = self.right_pending();
        assert(self.left_slot is Some ==> l.skip(1) =~= self.left.remaining());
        assert(self.right_slot is Some ==> r.skip(1) =~= self.right.remaining());
        match (self.left_slot, self.right_slot) {
            (Some(left), Some(right)) => {
                if left.doc_id < right.doc_id {
                    let out = self.fill_left();
                    assert(self.remaining() =~= old(self).remaining().skip(1));
                    out
                } else if left.doc_id == right.doc_id {
                    self.fill_left();
                    let out = self.fill_right();
                    assert(self.remaining() =~= old(self).remaining().skip(1));
                    out
                } else {
                    let out = self.fill_right();
                    assert(self.remaining() =~= old(self).remaining().skip(1));
                    out
                }
            },
            (Some(_), None) => {
                let out = self.fill_left();
                assert(self.remaining() =~= old(self).remaining().skip(1));
                out
            },
            (None, Some(_)) => {
                let out = self.fill_right();
                assert(self.remaining() =~= old(self).remaining().skip(1));
                out
            },
            (None, None) => None,
        }
    }
}

} // verus!
