//! Facts about reorderings: a permutation visits every index, and keeps sums.
use vstd::prelude::*;
use vstd::set_lib::{lemma_int_range, lemma_subset_equality, set_int_range};

verus! {

/// `p` lists each of `0..p.len()` exactly once.
pub open spec fn is_perm(p: Seq<int>) -> bool {
    &&& forall|i: int| 0 <= i < p.len() ==> 0 <= #[trigger] p[i] < p.len()
    &&& forall|i: int, j: int| 0 <= i < j < p.len() ==> p[i] != p[j]
}

/// The sum of a sequence of naturals.
pub open spec fn sum_nat(s: Seq<nat>) -> nat
    decreases s.len(),
{
    if s.len() == 0 {
        0
    } else {
        sum_nat(s.drop_last()) + s.last()
    }
}

/// A permutation reaches every index.
pub proof fn lemma_perm_covers(p: Seq<int>, k: int)
    requires
        is_perm(p),
        0 <= k < p.len(),
    ensures
        exists|i: int| 0 <= i < p.len() && p[i] == k,
{
    assert(p.no_duplicates()) by {
        assert forall|x: int, y: int| 0 <= x < p.len() && 0 <= y < p.len() && x != y implies p[x]
            != p[y] by {
            if x < y {
            } else {
                assert(p[y] != p[x]);
            }
        }
    }
    p.unique_seq_to_set();
    lemma_int_range(0, p.len() as int);
    let r = set_int_range(0, p.len() as int);
    assert(p.to_set().subset_of(r)) by {
        assert forall|v: int| p.to_set().contains(v) implies r.contains(v) by {
            let j = choose|j: int| 0 <= j < p.len() && p[j] == v;
        }
    }
    lemma_subset_equality(p.to_set(), r);
    assert(r.contains(k));
    assert(p.to_set().contains(k));
}

proof fn lemma_sum_remove(s: Seq<nat>, k: int)
    requires
        0 <= k < s.len(),
    ensures
        sum_nat(s) == sum_nat(s.remove(k)) + s[k],
    decreases s.len(),
{
    if k == s.len() - 1 {
        assert(s.remove(k) =~= s.drop_last());
    } else {
        lemma_sum_remove(s.drop_last(), k);
        assert(s.remove(k).drop_last() =~= s.drop_last().remove(k));
        assert(s.remove(k).last() == s.last());
    }
}

/// Reordering keeps the sum.
pub proof fn lemma_perm_sum(v: Seq<nat>, p: Seq<int>)
    requires
        is_perm(p),
        p.len() == v.len(),
    ensures
        sum_nat(Seq::new(v.len(), |i: int| v[p[i]])) == sum_nat(v),
    decreases v.len(),
{
    let n = v.len() as int;
    if n > 0 {
        lemma_perm_covers(p, n - 1);
        let k = choose|i: int| 0 <= i < p.len() && p[i] == n - 1;
        let q = p.remove(k);
        assert(is_perm(q)) by {
            assert forall|i: int| 0 <= i < q.len() implies 0 <= #[trigger] q[i] < q.len() by {
                if i < k {
                    assert(q[i] == p[i]);
                    assert(p[i] != p[k]);
                } else {
                    assert(q[i] == p[i + 1]);
                    assert(p[i + 1] != p[k]);
                }
            }
            assert forall|i: int, j: int| 0 <= i < j < q.len() implies q[i] != q[j] by {
                let a = if i < k { i } else { i + 1 };
                let b = if j < k { j } else { j + 1 };
                assert(q[i] == p[a]);
                assert(q[j] == p[b]);
            }
        }
        let vd = v.drop_last();
        lemma_perm_sum(vd, q);
        let w = Seq::new(v.len(), |i: int| v[p[i]]);
        lemma_sum_remove(w, k);
        assert(w.remove(k) =~= Seq::new(vd.len(), |i: int| vd[q[i]])) by {
            assert forall|i: int| 0 <= i < vd.len() implies w.remove(k)[i] == vd[q[i]] by {
                if i < k {
                    assert(q[i] == p[i]);
                } else {
                    assert(q[i] == p[i + 1]);
                }
            }
        }
    }
}

/// A sum of naturals grows with its terms.
pub proof fn lemma_sum_le(a: Seq<nat>, b: Seq<nat>)
    requires
        a.len() == b.len(),
        forall|i: int| 0 <= i < a.len() ==> a[i] <= b[i],
    ensures
        sum_nat(a) <= sum_nat(b),
    decreases a.len(),
{
    if a.len() > 0 {
        lemma_sum_le(a.drop_last(), b.drop_last());
    }
}

} // verus!
