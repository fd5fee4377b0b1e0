//! What the merge joins mean: on ascending sequences they are the
//! intersection, difference and union of multisets, and on strictly ascending
//! ones those of sets.

use vstd::prelude::*;
use crate::merge::{
    ascending, lemma_and_ascending, lemma_and_not_ascending, lemma_ascending_skip,
    lemma_contains_skip, lemma_or_ascending, merge_and, merge_and_not, merge_or, occurrences,
    strictly_ascending,
};

verus! {

/// The smaller of two counts.
pub open spec fn least(x: nat, y: nat) -> nat {
    if x <= y {
        x
    } else {
        y
    }
}

/// The greater of two counts.
pub open spec fn greatest(x: nat, y: nat) -> nat {
    if x <= y {
        y
    } else {
        x
    }
}

/// By how much the first count exceeds the second, if it does.
pub open spec fn excess(x: nat, y: nat) -> nat {
    if x <= y {
        0
    } else {
        (x - y) as nat
    }
}

/// No value stands more than once on both sides.
pub open spec fn no_shared_repeat(a: Seq<nat>, b: Seq<nat>) -> bool {
    forall|v: nat| #![trigger occurrences(a, v)] #![trigger occurrences(b, v)]
        occurrences(a, v) <= 1 || occurrences(b, v) <= 1
}

/// No value of the right side stands more often on the left side than on the right.
pub open spec fn covered_where_shared(a: Seq<nat>, b: Seq<nat>) -> bool {
    forall|v: nat| #![trigger occurrences(a, v)] #![trigger occurrences(b, v)]
        occurrences(b, v) == 0 || occurrences(a, v) <= occurrences(b, v)
}

/// A value stands in a sequence exactly when it occurs there at least once.
pub proof fn lemma_occurrences_contains(s: Seq<nat>, v: nat)
    ensures
        s.contains(v) <==> occurrences(s, v) > 0,
    decreases s.len(),
{
    if s.len() == 0 {
        assert(!s.contains(v));
    } else {
        lemma_contains_skip(s, v);
        lemma_occurrences_contains(s.skip(1), v);
    }
}

/// The occurrences in `h` followed by `t` are those in `t`, and one more for `h` itself.
pub proof fn lemma_occurrences_cons(h: nat, t: Seq<nat>, v: nat)
    ensures
        occurrences(seq![h] + t, v) == occurrences(t, v) + (if h == v {
            1nat
        } else {
            0nat
        }),
{
    assert((seq![h] + t).skip(1) =~= t);
}

/// Nothing below the head of an ascending sequence occurs in it.
pub proof fn lemma_below_head_absent(s: Seq<nat>, v: nat)
    requires
        ascending(s),
        s.len() > 0,
        v < s[0],
    ensures
        occurrences(s, v) == 0,
{
    lemma_occurrences_contains(s, v);
    if s.contains(v) {
        let i = choose|i: int| 0 <= i < s.len() && s[i] == v;
        assert(s[0] <= s[i]);
    }
}

/// A value that stands at two places occurs at least twice.
pub proof fn lemma_two_places(s: Seq<nat>, i: int, j: int)
    requires
        0 <= i < j < s.len(),
        s[i] == s[j],
    ensures
        occurrences(s, s[i]) >= 2,
    decreases s.len(),
{
    let v = s[i];
    if i == 0 {
        assert(s.skip(1)[j - 1] == v);
        assert(s.skip(1).contains(v));
        lemma_occurrences_contains(s.skip(1), v);
    } else {
        assert(s.skip(1)[i - 1] == v);
        assert(s.skip(1)[j - 1] == v);
        lemma_two_places(s.skip(1), i - 1, j - 1);
    }
}

/// No value occurs twice in a strictly ascending sequence.
pub proof fn lemma_strictly_ascending_once(s: Seq<nat>, v: nat)
    requires
        strictly_ascending(s),
    ensures
        occurrences(s, v) <= 1,
    decreases s.len(),
{
    if s.len() > 0 {
        let t = s.skip(1);
        assert(strictly_ascending(t)) by {
            assert forall|i: int, j: int| 0 <= i < j < t.len() implies t[i] < t[j] by {
                assert(s[i + 1] < s[j + 1]);
            }
        }
        lemma_strictly_ascending_once(t, v);
        if s[0] == v {
            lemma_occurrences_contains(t, v);
            if t.contains(v) {
                let i = choose|i: int| 0 <= i < t.len() && t[i] == v;
                assert(s[0] < s[i + 1]);
            }
        }
    }
}

/// A sequence is strictly ascending exactly when it is ascending and no value
/// occurs in it twice.
pub proof fn lemma_strictly_ascending_occurrences(s: Seq<nat>)
    ensures
        strictly_ascending(s) <==> (ascending(s) && forall|v: nat| occurrences(s, v) <= 1),
{
    if strictly_ascending(s) {
        assert(ascending(s));
        assert forall|v: nat| occurrences(s, v) <= 1 by {
            lemma_strictly_ascending_once(s, v);
        }
    }
    if ascending(s) && forall|v: nat| occurrences(s, v) <= 1 {
        assert forall|i: int, j: int| 0 <= i < j < s.len() implies s[i] < s[j] by {
            if s[i] == s[j] {
                lemma_two_places(s, i, j);
            }
        }
    }
}

/// Two ascending sequences in which every value occurs equally often are equal.
pub proof fn lemma_ascending_unique(s: Seq<nat>, t: Seq<nat>)
    requires
        ascending(s),
        ascending(t),
        forall|v: nat| occurrences(s, v) == occurrences(t, v),
    ensures
        s == t,
    decreases s.len(),
{
    if s.len() == 0 {
        if t.len() > 0 {
            assert(occurrences(s, t[0]) == occurrences(t, t[0]));
        }
        assert(s =~= t);
    } else {
        assert(occurrences(s, s[0]) == occurrences(t, s[0]));
        assert(t.len() > 0);
        assert(occurrences(s, t[0]) == occurrences(t, t[0]));
        if s[0] < t[0] {
            lemma_below_head_absent(t, s[0]);
        }
        if t[0] < s[0] {
            lemma_below_head_absent(s, t[0]);
        }
        assert(s[0] == t[0]);
        lemma_ascending_skip(s);
        lemma_ascending_skip(t);
        assert forall|v: nat| occurrences(s.skip(1), v) == occurrences(t.skip(1), v) by {
            assert(occurrences(s, v) == occurrences(t, v));
        }
        lemma_ascending_unique(s.skip(1), t.skip(1));
        assert(s =~= seq![s[0]] + s.skip(1));
        assert(t =~= seq![t[0]] + t.skip(1));
    }
}

/// Two strictly ascending sequences that hold the same values are equal.
pub proof fn lemma_strictly_ascending_unique(s: Seq<nat>, t: Seq<nat>)
    requires
        strictly_ascending(s),
        strictly_ascending(t),
        forall|v: nat| s.contains(v) <==> t.contains(v),
    ensures
        s == t,
{
    lemma_strictly_ascending_occurrences(s);
    lemma_strictly_ascending_occurrences(t);
    assert forall|v: nat| occurrences(s, v) == occurrences(t, v) by {
        lemma_occurrences_contains(s, v);
        lemma_occurrences_contains(t, v);
    }
    lemma_ascending_unique(s, t);
}

/// In the intersecting merge of two ascending sequences a value occurs as
/// often as on the side where it is rarer.
pub proof fn lemma_and_occurrences(a: Seq<nat>, b: Seq<nat>, v: nat)
    requires
        ascending(a),
        ascending(b),
    ensures
        occurrences(merge_and(a, b), v) == least(occurrences(a, v), occurrences(b, v)),
    decreases a.len() + b.len(),
{
    if a.len() == 0 || b.len() == 0 {
    } else {
        lemma_ascending_skip(a);
        lemma_ascending_skip(b);
        if a[0] == b[0] {
            lemma_and_occurrences(a.skip(1), b.skip(1), v);
            lemma_occurrences_cons(a[0], merge_and(a.skip(1), b.skip(1)), v);
        } else if a[0] < b[0] {
            lemma_and_occurrences(a.skip(1), b, v);
            if v == a[0] {
                lemma_below_head_absent(b, v);
            }
        } else {
            lemma_and_occurrences(a, b.skip(1), v);
            if v == b[0] {
                lemma_below_head_absent(a, v);
            }
        }
    }
}

/// In the excluding merge of two ascending sequences a value occurs as often
/// as the left side has it more often than the right.
pub proof fn lemma_and_not_occurrences(a: Seq<nat>, b: Seq<nat>, v: nat)
    requires
        ascending(a),
        ascending(b),
    ensures
        occurrences(merge_and_not(a, b), v) == excess(occurrences(a, v), occurrences(b, v)),
    decreases a.len() + b.len(),
{
    if a.len() == 0 || b.len() == 0 {
    } else {
        lemma_ascending_skip(a);
        lemma_ascending_skip(b);
        if a[0] == b[0] {
            lemma_and_not_occurrences(a.skip(1), b.skip(1), v);
        } else if a[0] < b[0] {
            lemma_and_not_occurrences(a.skip(1), b, v);
            lemma_occurrences_cons(a[0], merge_and_not(a.skip(1), b), v);
            if v == a[0] {
                lemma_below_head_absent(b, v);
            }
        } else {
            lemma_and_not_occurrences(a, b.skip(1), v);
            if v == b[0] {
                lemma_below_head_absent(a, v);
            }
        }
    }
}

/// In the uniting merge of two ascending sequences a value occurs as often as
/// on the side where it is more frequent.
pub proof fn lemma_or_occurrences(a: Seq<nat>, b: Seq<nat>, v: nat)
    requires
        ascending(a),
        ascending(b),
    ensures
        occurrences(merge_or(a, b), v) == greatest(occurrences(a, v), occurrences(b, v)),
    decreases a.len() + b.len(),
{
    if a.len() == 0 || b.len() == 0 {
    } else {
        lemma_ascending_skip(a);
        lemma_ascending_skip(b);
        if a[0] == b[0] {
            lemma_or_occurrences(a.skip(1), b.skip(1), v);
            lemma_occurrences_cons(a[0], merge_or(a.skip(1), b.skip(1)), v);
        } else if a[0] < b[0] {
            lemma_or_occurrences(a.skip(1), b, v);
            lemma_occurrences_cons(a[0], merge_or(a.skip(1), b), v);
            if v == a[0] {
                lemma_below_head_absent(b, v);
            }
        } else {
            lemma_or_occurrences(a, b.skip(1), v);
            lemma_occurrences_cons(b[0], merge_or(a, b.skip(1)), v);
            if v == b[0] {
                lemma_below_head_absent(a, v);
            }
        }
    }
}

/// `s` is the intersection of `a` and `b`, each taken with its repetitions: it
/// ascends, and holds every value as often as the side where it is rarer.
pub open spec fn is_intersection_of(s: Seq<nat>, a: Seq<nat>, b: Seq<nat>) -> bool {
    &&& ascending(s)
    &&& forall|v: nat| #[trigger]
        occurrences(s, v) == least(occurrences(a, v), occurrences(b, v))
}

/// `s` is the difference of `a` and `b`, each taken with its repetitions: it
/// ascends, and holds every value as often as `a` has it more often than `b`.
pub open spec fn is_difference_of(s: Seq<nat>, a: Seq<nat>, b: Seq<nat>) -> bool {
    &&& ascending(s)
    &&& forall|v: nat| #[trigger]
        occurrences(s, v) == excess(occurrences(a, v), occurrences(b, v))
}

/// `s` is the union of `a` and `b`, each taken with its repetitions: it
/// ascends, and holds every value as often as the side where it is more frequent.
pub open spec fn is_union_of(s: Seq<nat>, a: Seq<nat>, b: Seq<nat>) -> bool {
    &&& ascending(s)
    &&& forall|v: nat| #[trigger]
        occurrences(s, v) == greatest(occurrences(a, v), occurrences(b, v))
}

/// The intersecting merge of two ascending sequences is their intersection.
pub proof fn lemma_and_meaning(a: Seq<nat>, b: Seq<nat>)
    requires
        ascending(a),
        ascending(b),
    ensures
        is_intersection_of(merge_and(a, b), a, b),
{
    lemma_and_ascending(a, b);
    assert forall|v: nat| #[trigger]
        occurrences(merge_and(a, b), v) == least(occurrences(a, v), occurrences(b, v)) by {
        lemma_and_occurrences(a, b, v);
    }
}

/// The excluding merge of two ascending sequences is their difference.
pub proof fn lemma_and_not_meaning(a: Seq<nat>, b: Seq<nat>)
    requires
        ascending(a),
        ascending(b),
    ensures
        is_difference_of(merge_and_not(a, b), a, b),
{
    lemma_and_not_ascending(a, b);
    assert forall|v: nat| #[trigger]
        occurrences(merge_and_not(a, b), v) == excess(occurrences(a, v), occurrences(b, v)) by {
        lemma_and_not_occurrences(a, b, v);
    }
}

/// The uniting merge of two ascending sequences is their union.
pub proof fn lemma_or_meaning(a: Seq<nat>, b: Seq<nat>)
    requires
        ascending(a),
        ascending(b),
    ensures
        is_union_of(merge_or(a, b), a, b),
{
    lemma_or_ascending(a, b);
    assert forall|v: nat| #[trigger]
        occurrences(merge_or(a, b), v) == greatest(occurrences(a, v), occurrences(b, v)) by {
        lemma_or_occurrences(a, b, v);
    }
}

/// An intersection, a difference and a union are what they are in one way
/// only: the sequence is fixed by the two sides.
pub proof fn lemma_meaning_unique(s: Seq<nat>, t: Seq<nat>, a: Seq<nat>, b: Seq<nat>)
    requires
        (is_intersection_of(s, a, b) && is_intersection_of(t, a, b)) || (is_difference_of(s, a, b)
            && is_difference_of(t, a, b)) || (is_union_of(s, a, b) && is_union_of(t, a, b)),
    ensures
        s == t,
{
    assert forall|v: nat| occurrences(s, v) == occurrences(t, v) by {}
    lemma_ascending_unique(s, t);
}

/// The intersecting merge of two ascending sequences holds exactly the values
/// that both hold.
pub proof fn lemma_and_contains(a: Seq<nat>, b: Seq<nat>, v: nat)
    requires
        ascending(a),
        ascending(b),
    ensures
        merge_and(a, b).contains(v) <==> (a.contains(v) && b.contains(v)),
{
    lemma_and_occurrences(a, b, v);
    lemma_occurrences_contains(merge_and(a, b), v);
    lemma_occurrences_contains(a, v);
    lemma_occurrences_contains(b, v);
}

/// The uniting merge of two ascending sequences holds exactly the values that
/// one of them holds.
pub proof fn lemma_or_contains(a: Seq<nat>, b: Seq<nat>, v: nat)
    requires
        ascending(a),
        ascending(b),
    ensures
        merge_or(a, b).contains(v) <==> (a.contains(v) || b.contains(v)),
{
    lemma_or_occurrences(a, b, v);
    lemma_occurrences_contains(merge_or(a, b), v);
    lemma_occurrences_contains(a, v);
    lemma_occurrences_contains(b, v);
}

/// Intersection. Of two ascending sequences that repeat no common value, the
/// intersecting merge is the strictly ascending sequence of the values that
/// both hold.
pub proof fn lemma_and_is_intersection(a: Seq<nat>, b: Seq<nat>)
    requires
        ascending(a),
        ascending(b),
        no_shared_repeat(a, b),
    ensures
        strictly_ascending(merge_and(a, b)),
        forall|v: nat| merge_and(a, b).contains(v) <==> (a.contains(v) && b.contains(v)),
{
    let m = merge_and(a, b);
    lemma_and_ascending(a, b);
    assert forall|v: nat| occurrences(m, v) <= 1 by {
        lemma_and_occurrences(a, b, v);
        assert(occurrences(a, v) <= 1 || occurrences(b, v) <= 1);
    }
    lemma_strictly_ascending_occurrences(m);
    assert forall|v: nat| m.contains(v) <==> (a.contains(v) && b.contains(v)) by {
        lemma_and_contains(a, b, v);
    }
}

/// The intersecting merge of two ascending sequences, one of which ascends
/// strictly, ascends strictly.
pub proof fn lemma_and_strictly_ascending(a: Seq<nat>, b: Seq<nat>)
    requires
        ascending(a),
        ascending(b),
        strictly_ascending(a) || strictly_ascending(b),
    ensures
        strictly_ascending(merge_and(a, b)),
{
    lemma_strictly_ascending_occurrences(a);
    lemma_strictly_ascending_occurrences(b);
    lemma_and_is_intersection(a, b);
}

/// Difference. Of two ascending sequences where no value of the right one
/// stands more often on the left, the excluding merge shares no value with the
/// right side, and united with the intersecting merge it gives back the left side.
pub proof fn lemma_and_not_is_difference(a: Seq<nat>, b: Seq<nat>)
    requires
        ascending(a),
        ascending(b),
        covered_where_shared(a, b),
    ensures
        merge_or(merge_and_not(a, b), merge_and(a, b)) == a,
        forall|v: nat| !(merge_and_not(a, b).contains(v) && b.contains(v)),
        forall|v: nat| merge_and_not(a, b).contains(v) <==> (a.contains(v) && !b.contains(v)),
{
    let d = merge_and_not(a, b);
    let m = merge_and(a, b);
    lemma_and_not_ascending(a, b);
    lemma_and_ascending(a, b);
    lemma_or_ascending(d, m);
    assert forall|v: nat| occurrences(merge_or(d, m), v) == occurrences(a, v) by {
        lemma_or_occurrences(d, m, v);
        lemma_and_not_occurrences(a, b, v);
        lemma_and_occurrences(a, b, v);
        assert(occurrences(b, v) == 0 || occurrences(a, v) <= occurrences(b, v));
    }
    lemma_ascending_unique(merge_or(d, m), a);
    assert forall|v: nat| d.contains(v) <==> (a.contains(v) && !b.contains(v)) by {
        lemma_and_not_occurrences(a, b, v);
        lemma_occurrences_contains(d, v);
        lemma_occurrences_contains(a, v);
        lemma_occurrences_contains(b, v);
        assert(occurrences(b, v) == 0 || occurrences(a, v) <= occurrences(b, v));
    }
}

/// The excluding merge of a strictly ascending left side ascends strictly.
pub proof fn lemma_and_not_strictly_ascending(a: Seq<nat>, b: Seq<nat>)
    requires
        strictly_ascending(a),
        ascending(b),
    ensures
        strictly_ascending(merge_and_not(a, b)),
{
    let d = merge_and_not(a, b);
    lemma_strictly_ascending_occurrences(a);
    lemma_and_not_ascending(a, b);
    assert forall|v: nat| occurrences(d, v) <= 1 by {
        lemma_and_not_occurrences(a, b, v);
    }
    lemma_strictly_ascending_occurrences(d);
}

/// The uniting merge is as long as both sides together, less what the
/// intersecting merge holds.
pub proof fn lemma_or_length(a: Seq<nat>, b: Seq<nat>)
    ensures
        merge_or(a, b).len() == a.len() + b.len() - merge_and(a, b).len(),
    decreases a.len() + b.len(),
{
    if a.len() == 0 || b.len() == 0 {
    } else if a[0] == b[0] {
        lemma_or_length(a.skip(1), b.skip(1));
    } else if a[0] < b[0] {
        lemma_or_length(a.skip(1), b);
    } else {
        lemma_or_length(a, b.skip(1));
    }
}

/// Union. Of two strictly ascending sequences the uniting merge is the
/// strictly ascending sequence of the values that one of them holds, and it is
/// as long as both together, less what they share.
pub proof fn lemma_or_is_union(a: Seq<nat>, b: Seq<nat>)
    requires
        strictly_ascending(a),
        strictly_ascending(b),
    ensures
        strictly_ascending(merge_or(a, b)),
        forall|v: nat| merge_or(a, b).contains(v) <==> (a.contains(v) || b.contains(v)),
        merge_or(a, b).len() == a.len() + b.len() - merge_and(a, b).len(),
{
    let u = merge_or(a, b);
    lemma_strictly_ascending_occurrences(a);
    lemma_strictly_ascending_occurrences(b);
    lemma_or_ascending(a, b);
    assert forall|v: nat| occurrences(u, v) <= 1 by {
        lemma_or_occurrences(a, b, v);
    }
    lemma_strictly_ascending_occurrences(u);
    assert forall|v: nat| u.contains(v) <==> (a.contains(v) || b.contains(v)) by {
        lemma_or_contains(a, b, v);
    }
    lemma_or_length(a, b);
}

/// The intersecting merge does not depend on which side is which.
pub proof fn lemma_and_commutative(a: Seq<nat>, b: Seq<nat>)
    ensures
        merge_and(a, b) == merge_and(b, a),
    decreases a.len() + b.len(),
{
    if a.len() == 0 || b.len() == 0 {
    } else if a[0] == b[0] {
        lemma_and_commutative(a.skip(1), b.skip(1));
    } else if a[0] < b[0] {
        lemma_and_commutative(a.skip(1), b);
    } else {
        lemma_and_commutative(a, b.skip(1));
    }
}

/// The uniting merge does not depend on which side is which.
pub proof fn lemma_or_commutative(a: Seq<nat>, b: Seq<nat>)
    ensures
        merge_or(a, b) == merge_or(b, a),
    decreases a.len() + b.len(),
{
    if a.len() == 0 || b.len() == 0 {
        assert(merge_or(a, b) =~= merge_or(b, a));
    } else if a[0] == b[0] {
        lemma_or_commutative(a.skip(1), b.skip(1));
    } else if a[0] < b[0] {
        lemma_or_commutative(a.skip(1), b);
    } else {
        lemma_or_commutative(a, b.skip(1));
    }
}

/// Intersecting three ascending sequences gives the same whichever two are
/// joined first.
pub proof fn lemma_and_associative(a: Seq<nat>, b: Seq<nat>, c: Seq<nat>)
    requires
        ascending(a),
        ascending(b),
        ascending(c),
    ensures
        merge_and(merge_and(a, b), c) == merge_and(a, merge_and(b, c)),
{
    let ab = merge_and(a, b);
    let bc = merge_and(b, c);
    lemma_and_ascending(a, b);
    lemma_and_ascending(b, c);
    lemma_and_ascending(ab, c);
    lemma_and_ascending(a, bc);
    assert forall|v: nat| occurrences(merge_and(ab, c), v) == occurrences(merge_and(a, bc), v) by {
        lemma_and_occurrences(a, b, v);
        lemma_and_occurrences(b, c, v);
        lemma_and_occurrences(ab, c, v);
        lemma_and_occurrences(a, bc, v);
    }
    lemma_ascending_unique(merge_and(ab, c), merge_and(a, bc));
}

/// Uniting three ascending sequences gives the same whichever two are joined
/// first.
pub proof fn lemma_or_associative(a: Seq<nat>, b: Seq<nat>, c: Seq<nat>)
    requires
        ascending(a),
        ascending(b),
        ascending(c),
    ensures
        merge_or(merge_or(a, b), c) == merge_or(a, merge_or(b, c)),
{
    let ab = merge_or(a, b);
    let bc = merge_or(b, c);
    lemma_or_ascending(a, b);
    lemma_or_ascending(b, c);
    lemma_or_ascending(ab, c);
    lemma_or_ascending(a, bc);
    assert forall|v: nat| occurrences(merge_or(ab, c), v) == occurrences(merge_or(a, bc), v) by {
        lemma_or_occurrences(a, b, v);
        lemma_or_occurrences(b, c, v);
        lemma_or_occurrences(ab, c, v);
        lemma_or_occurrences(a, bc, v);
    }
    lemma_ascending_unique(merge_or(ab, c), merge_or(a, bc));
}

} // verus!
