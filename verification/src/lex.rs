//! The order of terms: byte strings, compared byte by byte.
//!
//! Terms are kept and written in ascending order of their UTF-8 bytes. This
//! module defines that order, proves that it is a strict total order, and
//! decides it.

use vstd::prelude::*;

verus! {

/// `a` and `b` agree on their first `k` bytes, and `a` is the smaller at `k`:
/// it ends there while `b` goes on, or its byte there is the smaller one.
pub open spec fn less_at(a: Seq<u8>, b: Seq<u8>, k: int) -> bool {
    &&& 0 <= k <= a.len()
    &&& k <= b.len()
    &&& forall|j: int| 0 <= j < k ==> a[j] == b[j]
    &&& (k == a.len() && k < b.len()) || (k < a.len() && k < b.len() && a[k] < b[k])
}

/// `a` comes strictly before `b` in byte-wise lexicographic order.
pub open spec fn lex_lt(a: Seq<u8>, b: Seq<u8>) -> bool {
    exists|k: int| less_at(a, b, k)
}

/// How one byte string stands to another.
#[derive(Clone, Copy, Debug, PartialEq, Eq, Structural)]
pub enum Relation {
    Before,
    Same,
    After,
}

/// No byte string comes before itself, and none both before and after another.
pub proof fn lemma_lex_asymmetric(a: Seq<u8>, b: Seq<u8>)
    ensures
        !(lex_lt(a, b) && lex_lt(b, a)),
        !lex_lt(a, a),
{
    if lex_lt(a, b) && lex_lt(b, a) {
        let k = choose|k: int| less_at(a, b, k);
        let m = choose|m: int| less_at(b, a, m);
        if k < m {
            assert(b[k] == a[k]);
        } else if m < k {
            assert(a[m] == b[m]);
        }
    }
    if lex_lt(a, a) {
        let k = choose|k: int| less_at(a, a, k);
    }
}

/// The order is transitive.
pub proof fn lemma_lex_transitive(a: Seq<u8>, b: Seq<u8>, c: Seq<u8>)
    requires
        lex_lt(a, b),
        lex_lt(b, c),
    ensures
        lex_lt(a, c),
{
    let k = choose|k: int| less_at(a, b, k);
    let m = choose|m: int| less_at(b, c, m);
    let n = if k <= m { k } else { m };
    assert forall|j: int| 0 <= j < n implies a[j] == c[j] by {
        assert(a[j] == b[j]);
        assert(b[j] == c[j]);
    }
    if k < m {
        assert(b[k] == c[k]);
    } else if m < k {
        assert(a[m] == b[m]);
    }
    assert(less_at(a, c, n));
}

/// Of two different byte strings one comes before the other.
pub proof fn lemma_lex_total(a: Seq<u8>, b: Seq<u8>)
    ensures
        a == b || lex_lt(a, b) || lex_lt(b, a),
{
    if a != b {
        let k = first_difference(a, b, 0);
        lemma_first_difference(a, b, 0);
        if k == a.len() {
            if k == b.len() {
                assert(a =~= b);
            } else {
                assert(less_at(a, b, k));
            }
        } else if k == b.len() {
            assert(less_at(b, a, k));
        } else if a[k] < b[k] {
            assert(less_at(a, b, k));
        } else {
            assert(less_at(b, a, k));
        }
    }
}

/// The first index from `i` on at which `a` and `b` differ or one of them ends.
pub open spec fn first_difference(a: Seq<u8>, b: Seq<u8>, i: int) -> int
    decreases a.len() - i,
{
    if 0 <= i < a.len() && i < b.len() && a[i] == b[i] {
        first_difference(a, b, i + 1)
    } else {
        i
    }
}

proof fn lemma_first_difference(a: Seq<u8>, b: Seq<u8>, i: int)
    requires
        0 <= i <= a.len(),
        i <= b.len(),
    ensures
        i <= first_difference(a, b, i) <= a.len(),
        first_difference(a, b, i) <= b.len(),
        forall|j: int| i <= j < first_difference(a, b, i) ==> a[j] == b[j],
        first_difference(a, b, i) < a.len() && first_difference(a, b, i) < b.len() ==> a[first_difference(
            a,
            b,
            i,
        )] != b[first_difference(a, b, i)],
    decreases a.len() - i,
{
    if i < a.len() && i < b.len() && a[i] == b[i] {
        lemma_first_difference(a, b, i + 1);
    }
}

/// Decides how `a` stands to `b` in byte-wise lexicographic order.
pub fn compare(a: &[u8], b: &[u8]) -> (r: Relation)
    ensures
        r == Relation::Before <==> lex_lt(a@, b@),
        r == Relation::Same <==> a@ == b@,
        r == Relation::After <==> lex_lt(b@, a@),
{
    proof {
        lemma_lex_asymmetric(a@, b@);
    }
    let mut i: usize = 0;
    while i < a.len() && i < b.len()
        invariant
            i <= a.len(),
            i <= b.len(),
            forall|j: int| 0 <= j < i ==> a@[j] == b@[j],
            !(lex_lt(a@, b@) && lex_lt(b@, a@)),
            !lex_lt(a@, a@),
        decreases a.len() - i,
    {
        if a[i] < b[i] {
            assert(less_at(a@, b@, i as int));
            return Relation::Before;
        }
        if a[i] > b[i] {
            assert(less_at(b@, a@, i as int));
            return Relation::After;
        }
        i += 1;
    }
    if i < b.len() {
        assert(less_at(a@, b@, i as int));
        Relation::Before
    } else if i < a.len() {
        assert(less_at(b@, a@, i as int));
        Relation::After
    } else {
        assert(a@ =~= b@);
        Relation::Same
    }
}

} // verus!
