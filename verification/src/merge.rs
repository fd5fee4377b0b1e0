//! The three merge joins as functions on sequences of identifiers, and what
//! they compute on ascending sequences.

use vstd::prelude::*;

verus! {

/// No identifier is smaller than one before it.
pub open spec fn ascending(s: Seq<nat>) -> bool {
    forall|i: int, j: int| 0 <= i < j < s.len() ==> s[i] <= s[j]
}

/// Every identifier is greater than all before it.
pub open spec fn strictly_ascending(s: Seq<nat>) -> bool {
    forall|i: int, j: int| 0 <= i < j < s.len() ==> s[i] < s[j]
}

/// How many times `v` stands in `s`.
pub open spec fn occurrences(s: Seq<nat>, v: nat) -> nat
    decreases s.len(),
{
    if s.len() == 0 {
        0
    } else if s[0] == v {
        1 + occurrences(s.skip(1), v)
    } else {
        occurrences(s.skip(1), v)
    }
}

/// The merge join that keeps what both sides hold: equal heads are yielded once
/// and leave both sides, otherwise the smaller head is dropped.
pub open spec fn merge_and(a: Seq<nat>, b: Seq<nat>) -> Seq<nat>
    decreases a.len() + b.len(),
{
    if a.len() == 0 || b.len() == 0 {
        Seq::empty()
    } else if a[0] == b[0] {
        seq![a[0]] + merge_and(a.skip(1), b.skip(1))
    } else if a[0] < b[0] {
        merge_and(a.skip(1), b)
    } else {
        merge_and(a, b.skip(1))
    }
}

/// The merge join that keeps what only the left side holds: equal heads leave
/// both sides unseen, a smaller left head is yielded, a smaller right head is
/// dropped.
pub open spec fn merge_and_not(a: Seq<nat>, b: Seq<nat>) -> Seq<nat>
    decreases a.len() + b.len(),
{
    if a.len() == 0 {
        Seq::empty()
    } else if b.len() == 0 {
        a
    } else if a[0] == b[0] {
        merge_and_not(a.skip(1), b.skip(1))
    } else if a[0] < b[0] {
        seq![a[0]] + merge_and_not(a.skip(1), b)
    } else {
        merge_and_not(a, b.skip(1))
    }
}

/// The merge join that keeps what either side holds: equal heads are yielded
/// once and leave both sides, otherwise the smaller head is yielded.
pub open spec fn merge_or(a: Seq<nat>, b: Seq<nat>) -> Seq<nat>
    decreases a.len() + b.len(),
{
    if a.len() == 0 {
        b
    } else if b.len() == 0 {
        a
    } else if a[0] == b[0] {
        seq![a[0]] + merge_or(a.skip(1), b.skip(1))
    } else if a[0] < b[0] {
        seq![a[0]] + merge_or(a.skip(1), b)
    } else {
        seq![b[0]] + merge_or(a, b.skip(1))
    }
}

/// A value stands in a non-empty sequence if it is the head or stands in the tail.
pub proof fn lemma_contains_skip(s: Seq<nat>, v: nat)
    requires
        s.len() > 0,
    ensures
        s.contains(v) <==> (s[0] == v || s.skip(1).contains(v)),
{
    if s.contains(v) {
        let i = choose|i: int| 0 <= i < s.len() && s[i] == v;
        if i > 0 {
            assert(s.skip(1)[i - 1] == v);
        }
    }
    if s.skip(1).contains(v) {
        let i = choose|i: int| 0 <= i < s.skip(1).len() && s.skip(1)[i] == v;
        assert(s[i + 1] == v);
    }
    if s[0] == v {
        assert(s.contains(v));
    }
}

/// A value stands in `h` followed by `t` if it is `h` or stands in `t`.
pub proof fn lemma_contains_cons(h: nat, t: Seq<nat>, v: nat)
    ensures
        (seq![h] + t).contains(v) <==> (h == v || t.contains(v)),
{
    let s = seq![h] + t;
    assert(s.skip(1) =~= t);
    lemma_contains_skip(s, v);
}

/// The tail of an ascending sequence is ascending, and holds nothing below the head.
pub proof fn lemma_ascending_skip(s: Seq<nat>)
    requires
        ascending(s),
        s.len() > 0,
    ensures
        ascending(s.skip(1)),
        forall|v: nat| s.skip(1).contains(v) ==> s[0] <= v,
{
    let t = s.skip(1);
    assert forall|i: int, j: int| 0 <= i < j < t.len() implies t[i] <= t[j] by {
        assert(s[i + 1] <= s[j + 1]);
    }
    assert forall|v: nat| t.contains(v) implies s[0] <= v by {
        let i = choose|i: int| 0 <= i < t.len() && t[i] == v;
        assert(s[0] <= s[i + 1]);
    }
}

/// An ascending sequence stays ascending with a head that nothing in it is below.
pub proof fn lemma_ascending_cons(h: nat, t: Seq<nat>)
    requires
        ascending(t),
        forall|v: nat| t.contains(v) ==> h <= v,
    ensures
        ascending(seq![h] + t),
{
    let s = seq![h] + t;
    assert forall|i: int, j: int| 0 <= i < j < s.len() implies s[i] <= s[j] by {
        assert(t.contains(t[j - 1]));
        if i > 0 {
            assert(t[i - 1] <= t[j - 1]);
        }
    }
}

/// An ascending sequence stays ascending when an identifier that is not below
/// its last is appended.
pub proof fn lemma_ascending_push(s: Seq<nat>, id: nat)
    requires
        ascending(s),
        s.len() > 0 ==> s.last() <= id,
    ensures
        ascending(s.push(id)),
{
    let r = s.push(id);
    assert forall|i: int, j: int| 0 <= i < j < r.len() implies r[i] <= r[j] by {
        if j < s.len() {
            assert(s[i] <= s[j]);
        } else if i < s.len() - 1 {
            assert(s[i] <= s[s.len() - 1]);
        }
    }
}

/// A strictly ascending sequence stays so when an identifier above its last
/// is appended.
pub proof fn lemma_strictly_ascending_push(s: Seq<nat>, id: nat)
    requires
        strictly_ascending(s),
        s.len() > 0 ==> s.last() < id,
    ensures
        strictly_ascending(s.push(id)),
{
    let r = s.push(id);
    assert forall|i: int, j: int| 0 <= i < j < r.len() implies r[i] < r[j] by {
        if j < s.len() {
            assert(s[i] < s[j]);
        } else if i < s.len() - 1 {
            assert(s[i] < s[s.len() - 1]);
        }
    }
}

/// What the intersecting merge yields stands on both sides.
pub proof fn lemma_and_within(a: Seq<nat>, b: Seq<nat>, v: nat)
    requires
        merge_and(a, b).contains(v),
    ensures
        a.contains(v),
        b.contains(v),
    decreases a.len() + b.len(),
{
    if a.len() == 0 || b.len() == 0 {
    } else {
        lemma_contains_skip(a, v);
        lemma_contains_skip(b, v);
        if a[0] == b[0] {
            lemma_contains_cons(a[0], merge_and(a.skip(1), b.skip(1)), v);
            if v != a[0] {
                lemma_and_within(a.skip(1), b.skip(1), v);
            }
        } else if a[0] < b[0] {
            lemma_and_within(a.skip(1), b, v);
        } else {
            lemma_and_within(a, b.skip(1), v);
        }
    }
}

/// What the excluding merge yields stands on the left side.
pub proof fn lemma_and_not_within(a: Seq<nat>, b: Seq<nat>, v: nat)
    requires
        merge_and_not(a, b).contains(v),
    ensures
        a.contains(v),
    decreases a.len() + b.len(),
{
    if a.len() == 0 || b.len() == 0 {
    } else {
        lemma_contains_skip(a, v);
        if a[0] == b[0] {
            lemma_and_not_within(a.skip(1), b.skip(1), v);
        } else if a[0] < b[0] {
            lemma_contains_cons(a[0], merge_and_not(a.skip(1), b), v);
            if v != a[0] {
                lemma_and_not_within(a.skip(1), b, v);
            }
        } else {
            lemma_and_not_within(a, b.skip(1), v);
        }
    }
}

/// What the uniting merge yields stands on one of the sides.
pub proof fn lemma_or_within(a: Seq<nat>, b: Seq<nat>, v: nat)
    requires
        merge_or(a, b).contains(v),
    ensures
        a.contains(v) || b.contains(v),
    decreases a.len() + b.len(),
{
    if a.len() == 0 || b.len() == 0 {
    } else {
        lemma_contains_skip(a, v);
        lemma_contains_skip(b, v);
        if a[0] == b[0] {
            lemma_contains_cons(a[0], merge_or(a.skip(1), b.skip(1)), v);
            if v != a[0] {
                lemma_or_within(a.skip(1), b.skip(1), v);
            }
        } else if a[0] < b[0] {
            lemma_contains_cons(a[0], merge_or(a.skip(1), b), v);
            if v != a[0] {
                lemma_or_within(a.skip(1), b, v);
            }
        } else {
            lemma_contains_cons(b[0], merge_or(a, b.skip(1)), v);
            if v != b[0] {
                lemma_or_within(a, b.skip(1), v);
            }
        }
    }
}

/// The intersecting merge of an ascending left side is ascending.
pub proof fn lemma_and_ascending(a: Seq<nat>, b: Seq<nat>)
    requires
        ascending(a),
    ensures
        ascending(merge_and(a, b)),
    decreases a.len() + b.len(),
{
    if a.len() == 0 || b.len() == 0 {
    } else if a[0] == b[0] {
        let rest = merge_and(a.skip(1), b.skip(1));
        lemma_ascending_skip(a);
        lemma_and_ascending(a.skip(1), b.skip(1));
        assert forall|v: nat| rest.contains(v) implies a[0] <= v by {
            lemma_and_within(a.skip(1), b.skip(1), v);
        }
        lemma_ascending_cons(a[0], rest);
    } else if a[0] < b[0] {
        lemma_ascending_skip(a);
        lemma_and_ascending(a.skip(1), b);
    } else {
        lemma_and_ascending(a, b.skip(1));
    }
}

/// The excluding merge of an ascending left side is ascending.
pub proof fn lemma_and_not_ascending(a: Seq<nat>, b: Seq<nat>)
    requires
        ascending(a),
    ensures
        ascending(merge_and_not(a, b)),
    decreases a.len() + b.len(),
{
    if a.len() == 0 || b.len() == 0 {
    } else if a[0] == b[0] {
        lemma_ascending_skip(a);
        lemma_and_not_ascending(a.skip(1), b.skip(1));
    } else if a[0] < b[0] {
        let rest = merge_and_not(a.skip(1), b);
        lemma_ascending_skip(a);
        lemma_and_not_ascending(a.skip(1), b);
        assert forall|v: nat| rest.contains(v) implies a[0] <= v by {
            lemma_and_not_within(a.skip(1), b, v);
        }
        lemma_ascending_cons(a[0], rest);
    } else {
        lemma_and_not_ascending(a, b.skip(1));
    }
}

/// The uniting merge of two ascending sides is ascending.
pub proof fn lemma_or_ascending(a: Seq<nat>, b: Seq<nat>)
    requires
        ascending(a),
        ascending(b),
    ensures
        ascending(merge_or(a, b)),
    decreases a.len() + b.len(),
{
    if a.len() == 0 || b.len() == 0 {
    } else {
        lemma_ascending_skip(a);
        lemma_ascending_skip(b);
        if a[0] == b[0] {
            let rest = merge_or(a.skip(1), b.skip(1));
            lemma_or_ascending(a.skip(1), b.skip(1));
            assert forall|v: nat| rest.contains(v) implies a[0] <= v by {
                lemma_or_within(a.skip(1), b.skip(1), v);
            }
            lemma_ascending_cons(a[0], rest);
        } else if a[0] < b[0] {
            let rest = merge_or(a.skip(1), b);
            lemma_or_ascending(a.skip(1), b);
            assert forall|v: nat| rest.contains(v) implies a[0] <= v by {
                lemma_or_within(a.skip(1), b, v);
                lemma_contains_skip(b, v);
            }
            lemma_ascending_cons(a[0], rest);
        } else {
            let rest = merge_or(a, b.skip(1));
            lemma_or_ascending(a, b.skip(1));
            assert forall|v: nat| rest.contains(v) implies b[0] <= v by {
                lemma_or_within(a, b.skip(1), v);
                lemma_contains_skip(a, v);
            }
            lemma_ascending_cons(b[0], rest);
        }
    }
}

} // verus!
