//! The dictionary of the index: terms in lexicographic order of their bytes,
//! each with the number of its postings list.

use vstd::prelude::*;
use vstd::utf8::{encode_utf8, encode_utf8_decode_utf8};

verus! {

/// Two byte strings hold the same bytes at their first `k` places.
pub open spec fn agree_upto(a: Seq<u8>, b: Seq<u8>, k: int) -> bool {
    &&& 0 <= k <= a.len()
    &&& k <= b.len()
    &&& forall|i: int| 0 <= i < k ==> a[i] == b[i]
}

/// Lexicographic order of byte strings: `a` is a proper prefix of `b`, or has
/// the smaller byte where the two first differ.
pub open spec fn bytes_lt(a: Seq<u8>, b: Seq<u8>) -> bool {
    exists|k: int| #[trigger] agree_upto(a, b, k) && k < b.len() && (k == a.len() || a[k] < b[k])
}

/// The order of terms: that of their UTF-8 encodings.
pub open spec fn term_lt(s: Seq<char>, t: Seq<char>) -> bool {
    bytes_lt(encode_utf8(s), encode_utf8(t))
}

/// No byte string is below itself, and of two byte strings at most one is
/// below the other.
pub proof fn lemma_bytes_lt_asymmetric(a: Seq<u8>, b: Seq<u8>)
    ensures
        !(bytes_lt(a, b) && bytes_lt(b, a)),
        !bytes_lt(a, a),
{
    if bytes_lt(a, b) && bytes_lt(b, a) {
        let k1 = choose|k: int| #[trigger]
            agree_upto(a, b, k) && k < b.len() && (k == a.len() || a[k] < b[k]);
        let k2 = choose|k: int| #[trigger]
            agree_upto(b, a, k) && k < a.len() && (k == b.len() || b[k] < a[k]);
        if k1 < k2 {
            assert(b[k1] == a[k1]);
        } else if k2 < k1 {
            assert(a[k2] == b[k2]);
        }
    }
    if bytes_lt(a, a) {
        let k = choose|k: int| #[trigger]
            agree_upto(a, a, k) && k < a.len() && (k == a.len() || a[k] < a[k]);
    }
}

/// The order of byte strings is transitive.
pub proof fn lemma_bytes_lt_transitive(a: Seq<u8>, b: Seq<u8>, c: Seq<u8>)
    requires
        bytes_lt(a, b),
        bytes_lt(b, c),
    ensures
        bytes_lt(a, c),
{
    let k1 = choose|k: int| #[trigger]
        agree_upto(a, b, k) && k < b.len() && (k == a.len() || a[k] < b[k]);
    let k2 = choose|k: int| #[trigger]
        agree_upto(b, c, k) && k < c.len() && (k == b.len() || b[k] < c[k]);
    let k = if k1 <= k2 {
        k1
    } else {
        k2
    };
    assert(agree_upto(a, c, k));
    if k1 < k2 {
        assert(b[k1] == c[k1]);
    } else if k2 < k1 {
        assert(a[k2] == b[k2]);
    }
    assert(k < c.len() && (k == a.len() || a[k] < c[k]));
}

/// Terms with the same encoding are the same term.
pub proof fn lemma_encoding_injective(s: Seq<char>, t: Seq<char>)
    requires
        encode_utf8(s) == encode_utf8(t),
    ensures
        s == t,
{
    encode_utf8_decode_utf8(s);
    encode_utf8_decode_utf8(t);
}

/// Of two terms exactly one holds: the first is below the second, they are
/// equal, or the second is below the first.
pub proof fn lemma_term_lt_exclusive(s: Seq<char>, t: Seq<char>)
    ensures
        !(term_lt(s, t) && term_lt(t, s)),
        !(term_lt(s, t) && s == t),
        !(term_lt(t, s) && s == t),
{
    lemma_bytes_lt_asymmetric(encode_utf8(s), encode_utf8(t));
    lemma_bytes_lt_asymmetric(encode_utf8(s), encode_utf8(s));
}

/// The order of terms is transitive.
pub proof fn lemma_term_lt_transitive(s: Seq<char>, t: Seq<char>, u: Seq<char>)
    requires
        term_lt(s, t),
        term_lt(t, u),
    ensures
        term_lt(s, u),
{
    lemma_bytes_lt_transitive(encode_utf8(s), encode_utf8(t), encode_utf8(u));
}

/// How one term stands to another in the order of terms.
#[derive(Debug, PartialEq, Eq, Clone, Copy)]
pub enum Rank {
    Before,
    Same,
    After,
}

/// Compares two terms byte by byte.
pub fn compare_terms(a: &String, b: &String) -> (r: Rank)
    ensures
        (r is Before) == term_lt(a@, b@),
        (r is Same) == (a@ == b@),
        (r is After) == term_lt(b@, a@),
{
    let x = a.as_str().as_bytes();
    let y = b.as_str().as_bytes();
    proof {
        lemma_term_lt_exclusive(a@, b@);
    }
    let mut i: usize = 0;
    while i < x.len() && i < y.len()
        invariant
            x@ == encode_utf8(a@),
            y@ == encode_utf8(b@),
            agree_upto(x@, y@, i as int),
        decreases x.len() - i,
    {
        if x[i] < y[i] {
            assert(agree_upto(x@, y@, i as int) && i < y@.len() && (i == x@.len() || x@[i as int]
                < y@[i as int]));
            return Rank::Before;
        }
        if x[i] > y[i] {
            assert(agree_upto(y@, x@, i as int) && i < x@.len() && (i == y@.len() || y@[i as int]
                < x@[i as int]));
            return Rank::After;
        }
        i = i + 1;
    }
    if x.len() < y.len() {
        assert(agree_upto(x@, y@, i as int) && i < y@.len() && (i == x@.len() || x@[i as int]
            < y@[i as int]));
        Rank::Before
    } else if x.len() > y.len() {
        assert(agree_upto(y@, x@, i as int) && i < x@.len() && (i == y@.len() || y@[i as int]
            < x@[i as int]));
        Rank::After
    } else {
        assert(x@ =~= y@);
        proof {
            lemma_encoding_injective(a@, b@);
        }
        Rank::Same
    }
}

/// The terms of the rows stand in strictly ascending order.
pub open spec fn sorted_terms<V>(s: Seq<(Seq<char>, V)>) -> bool {
    forall|i: int, j: int| 0 <= i < j < s.len() ==> term_lt(#[trigger] s[i].0, #[trigger] s[j].0)
}

/// The term stands in one of the rows.
pub open spec fn has_term<V>(s: Seq<(Seq<char>, V)>, t: Seq<char>) -> bool {
    exists|i: int| 0 <= i < s.len() && (#[trigger] s[i]).0 == t
}

/// A place at which the term stands in the rows.
pub open spec fn place_of<V>(s: Seq<(Seq<char>, V)>, t: Seq<char>) -> int {
    choose|i: int| 0 <= i < s.len() && (#[trigger] s[i]).0 == t
}

/// The rows as a map from each term to what stands with it.
pub open spec fn as_map<V>(s: Seq<(Seq<char>, V)>) -> Map<Seq<char>, V> {
    Map::new(|t: Seq<char>| has_term(s, t), |t: Seq<char>| s[place_of(s, t)].1)
}

/// In sorted rows a term stands at one place only, and the map gives what
/// stands there with it.
pub proof fn lemma_place_unique<V>(s: Seq<(Seq<char>, V)>, i: int)
    requires
        sorted_terms(s),
        0 <= i < s.len(),
    ensures
        has_term(s, s[i].0),
        place_of(s, s[i].0) == i,
        as_map(s).contains_key(s[i].0),
        as_map(s)[s[i].0] == s[i].1,
{
    let j = place_of(s, s[i].0);
    lemma_term_lt_exclusive(s[i].0, s[j].0);
    if i < j {
        assert(term_lt(s[i].0, s[j].0));
    } else if j < i {
        assert(term_lt(s[j].0, s[i].0));
    }
}

/// Sorted rows hold the same terms, with the same beside each, in one way only.
pub proof fn lemma_sorted_unique<V>(a: Seq<(Seq<char>, V)>, b: Seq<(Seq<char>, V)>)
    requires
        sorted_terms(a),
        sorted_terms(b),
        forall|t: Seq<char>| has_term(a, t) <==> has_term(b, t),
        forall|i: int, j: int|
            0 <= i < a.len() && 0 <= j < b.len() && (#[trigger] a[i]).0 == (#[trigger] b[j]).0
                ==> a[i].1 == b[j].1,
    ensures
        a == b,
    decreases a.len(),
{
    if a.len() == 0 {
        if b.len() > 0 {
            assert(has_term(b, b[0].0));
        }
        assert(a =~= b);
    } else {
        assert(has_term(a, a[0].0));
        assert(has_term(b, a[0].0));
        let j = place_of(b, a[0].0);
        assert(has_term(b, b[0].0));
        let i = place_of(a, b[0].0);
        lemma_term_lt_exclusive(a[0].0, b[0].0);
        if j > 0 && i > 0 {
            assert(term_lt(b[0].0, b[j].0));
            assert(term_lt(a[0].0, a[i].0));
        }
        assert(a[0].0 == b[0].0);
        assert(a[0].1 == b[0].1);
        let x = a.skip(1);
        let y = b.skip(1);
        assert forall|t: Seq<char>| has_term(x, t) <==> has_term(y, t) by {
            lemma_term_lt_exclusive(a[0].0, t);
            if has_term(x, t) {
                let k = place_of(x, t);
                assert(term_lt(a[0].0, a[k + 1].0));
                assert(has_term(a, t)) by {
                    assert(a[k + 1].0 == t);
                }
                let m = place_of(b, t);
                assert(y[m - 1].0 == t);
            }
            if has_term(y, t) {
                let k = place_of(y, t);
                assert(term_lt(b[0].0, b[k + 1].0));
                assert(has_term(b, t)) by {
                    assert(b[k + 1].0 == t);
                }
                let m = place_of(a, t);
                assert(x[m - 1].0 == t);
            }
        }
        assert(sorted_terms(x)) by {
            assert forall|k: int, m: int| 0 <= k < m < x.len() implies term_lt(
                #[trigger] x[k].0,
                #[trigger] x[m].0,
            ) by {
                assert(term_lt(a[k + 1].0, a[m + 1].0));
            }
        }
        assert(sorted_terms(y)) by {
            assert forall|k: int, m: int| 0 <= k < m < y.len() implies term_lt(
                #[trigger] y[k].0,
                #[trigger] y[m].0,
            ) by {
                assert(term_lt(b[k + 1].0, b[m + 1].0));
            }
        }
        assert forall|k: int, m: int|
            0 <= k < x.len() && 0 <= m < y.len() && (#[trigger] x[k]).0 == (#[trigger] y[m]).0
            implies x[k].1 == y[m].1 by {
            assert(a[k + 1].0 == b[m + 1].0);
        }
        lemma_sorted_unique(x, y);
        assert(a =~= seq![a[0]] + x);
        assert(b =~= seq![b[0]] + y);
    }
}

/// A sorted dictionary with one more term, put where the order wants it, is
/// sorted, and is the map it was with that term added.
pub proof fn lemma_insert_sorted(s: Seq<(Seq<char>, usize)>, p: int, t: Seq<char>, n: usize)
    requires
        sorted_terms(s),
        0 <= p <= s.len(),
        forall|i: int| 0 <= i < p ==> term_lt(#[trigger] s[i].0, t),
        forall|i: int| p <= i < s.len() ==> term_lt(t, #[trigger] s[i].0),
    ensures
        sorted_terms(s.insert(p, (t, n))),
        as_map(s.insert(p, (t, n))) == as_map(s).insert(t, n),
{
    let r = s.insert(p, (t, n));
    assert forall|i: int, j: int| 0 <= i < j < r.len() implies term_lt(
        #[trigger] r[i].0,
        #[trigger] r[j].0,
    ) by {
        if j < p {
            assert(term_lt(s[i].0, s[j].0));
        } else if j == p {
            assert(term_lt(s[i].0, t));
        } else if i < p {
            assert(term_lt(s[i].0, t));
            assert(term_lt(t, s[j - 1].0));
            lemma_term_lt_transitive(s[i].0, t, s[j - 1].0);
        } else if i == p {
            assert(term_lt(t, s[j - 1].0));
        } else {
            assert(term_lt(s[i - 1].0, s[j - 1].0));
        }
    }
    assert forall|u: Seq<char>| as_map(r).contains_key(u) <==> as_map(s).insert(
        t,
        n,
    ).contains_key(u) by {
        if has_term(r, u) {
            let i = place_of(r, u);
            if i < p {
                assert(s[i].0 == u);
            } else if i > p {
                assert(s[i - 1].0 == u);
            }
        }
        if has_term(s, u) {
            let i = place_of(s, u);
            if i < p {
                assert(r[i].0 == u);
            } else {
                assert(r[i + 1].0 == u);
            }
        }
        if u == t {
            assert(r[p].0 == u);
        }
    }
    assert forall|u: Seq<char>| as_map(r).contains_key(u) implies as_map(r)[u] == as_map(s).insert(
        t,
        n,
    )[u] by {
        let i = place_of(r, u);
        lemma_place_unique(r, i);
        if i < p {
            lemma_place_unique(s, i);
        } else if i > p {
            lemma_place_unique(s, i - 1);
        } else {
            assert(u == t);
        }
    }
    assert(as_map(r) =~= as_map(s).insert(t, n));
}

/// A term of the dictionary and the number of its postings list.
struct TermEntry {
    term: String,
    slot: usize,
}

/// A map from terms to numbers that keeps its terms in their order.
pub struct TermMap {
    entries: Vec<TermEntry>,
}

impl View for TermMap {
    type V = Map<Seq<char>, usize>;

    open spec fn view(&self) -> Map<Seq<char>, usize> {
        as_map(self.ordered())
    }
}

impl TermMap {
    /// The terms and their numbers, in the order in which the map keeps them.
    pub closed spec fn ordered(&self) -> Seq<(Seq<char>, usize)> {
        Seq::new(self.entries@.len(), |i: int| (self.entries@[i].term@, self.entries@[i].slot))
    }

    /// The invariant of the map: its terms ascend strictly.
    pub open spec fn wf(&self) -> bool {
        sorted_terms(self.ordered())
    }

    /// A map without terms.
    pub fn new() -> (r: Self)
        ensures
            r.wf(),
            r.ordered() == Seq::<(Seq<char>, usize)>::empty(),
            r@ == Map::<Seq<char>, usize>::empty(),
    {
        let r = TermMap { entries: Vec::new() };
        assert(r.ordered() =~= Seq::<(Seq<char>, usize)>::empty());
        assert(r@ =~= Map::<Seq<char>, usize>::empty());
        r
    }

    /// How many terms the map holds.
    pub fn len(&self) -> (r: usize)
        ensures
            r == self.ordered().len(),
    {
        self.entries.len()
    }

    /// The term at place `i` of the order.
    pub fn term_at(&self, i: usize) -> (r: &String)
        requires
            i < self.ordered().len(),
        ensures
            r@ == self.ordered()[i as int].0,
    {
        &self.entries[i].term
    }

    /// The number that stands with the term at place `i` of the order.
    pub fn slot_at(&self, i: usize) -> (r: usize)
        requires
            i < self.ordered().len(),
        ensures
            r == self.ordered()[i as int].1,
    {
        self.entries[i].slot
    }

    /// Where the term stands, or where the order wants it.
    fn find(&self, term: &String) -> (r: (usize, bool))
        requires
            self.wf(),
        ensures
            r.0 <= self.ordered().len(),
            r.1 ==> r.0 < self.ordered().len() && self.ordered()[r.0 as int].0 == term@,
            !r.1 ==> forall|i: int| 0 <= i < r.0 ==> term_lt(#[trigger] self.ordered()[i].0, term@),
            !r.1 ==> forall|i: int|
                r.0 <= i < self.ordered().len() ==> term_lt(term@, #[trigger] self.ordered()[i].0),
    {
        let ghost s = self.ordered();
        let mut lo: usize = 0;
        let mut hi: usize = self.entries.len();
        while lo < hi
            invariant
                s == self.ordered(),
                sorted_terms(s),
                lo <= hi <= s.len(),
                s.len() == self.entries@.len(),
                forall|i: int| 0 <= i < lo ==> term_lt(#[trigger] s[i].0, term@),
                forall|i: int| hi <= i < s.len() ==> term_lt(term@, #[trigger] s[i].0),
            decreases hi - lo,
        {
            let mid: usize = lo + (hi - lo) / 2;
            assert(s[mid as int].0 == self.entries@[mid as int].term@);
            match compare_terms(&self.entries[mid].term, term) {
                Rank::Before => {
                    assert forall|i: int| 0 <= i < mid + 1 implies term_lt(
                        #[trigger] s[i].0,
                        term@,
                    ) by {
                        if i < mid {
                            assert(term_lt(s[i].0, s[mid as int].0));
                            lemma_term_lt_transitive(s[i].0, s[mid as int].0, term@);
                        }
                    }
                    lo = mid + 1;
                },
                Rank::Same => {
                    return (mid, true);
                },
                Rank::After => {
                    assert forall|i: int| mid <= i < s.len() implies term_lt(
                        term@,
                        #[trigger] s[i].0,
                    ) by {
                        if mid < i {
                            assert(term_lt(s[mid as int].0, s[i].0));
                            lemma_term_lt_transitive(term@, s[mid as int].0, s[i].0);
                        }
                    }
                    hi = mid;
                },
            }
        }
        (lo, false)
    }

    /// The number that stands with the term, if the map holds the term.
    pub fn get(&self, term: &String) -> (r: Option<usize>)
        requires
            self.wf(),
        ensures
            r == (if self@.contains_key(term@) {
                Some(self@[term@])
            } else {
                None
            }),
    {
        let (p, found) = self.find(term);
        let ghost s = self.ordered();
        if found {
            proof {
                lemma_place_unique(s, p as int);
            }
            Some(self.entries[p].slot)
        } else {
            proof {
                if has_term(s, term@) {
                    let i = place_of(s, term@);
                    lemma_term_lt_exclusive(s[i].0, term@);
                }
            }
            None
        }
    }

    /// The number that stands with the term; a term that the map lacks is
    /// first added with the number `slot`.
    pub fn get_or_insert(&mut self, term: String, slot: usize) -> (r: usize)
        requires
            old(self).wf(),
        ensures
            final(self).wf(),
            old(self)@.contains_key(term@) ==> final(self)@ == old(self)@ && r == old(self)@[term@],
            !old(self)@.contains_key(term@) ==> final(self)@ == old(self)@.insert(term@, slot) && r
                == slot,
    {
        let (p, found) = self.find(&term);
        let ghost s = self.ordered();
        if found {
            proof {
                lemma_place_unique(s, p as int);
            }
            self.entries[p].slot
        } else {
            proof {
                if has_term(s, term@) {
                    let i = place_of(s, term@);
                    lemma_term_lt_exclusive(s[i].0, term@);
                }
                lemma_insert_sorted(s, p as int, term@, slot);
            }
            self.entries.insert(p, TermEntry { term, slot });
            assert(self.ordered() =~= s.insert(p as int, (term@, slot)));
            slot
        }
    }
}

} // verus!
