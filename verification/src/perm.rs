//! Permutations as sequences: index ranges, and the fact that reindexing a
//! sequence by a bijection preserves its multiset of values.

use vstd::prelude::*;
use vstd::seq_lib::group_seq_properties;

verus! {

/// The sequence `0, 1, ..., n-1`.
pub open spec fn seq_range(n: nat) -> Seq<usize> {
    Seq::new(n, |i: int| i as usize)
}

/// The vector `0, 1, ..., n-1`.
pub fn index_vec(n: usize) -> (v: Vec<usize>)
    ensures
        v@ == seq_range(n as nat),
{
    let mut v: Vec<usize> = Vec::new();
    let mut i: usize = 0;
    while i < n
        invariant
            i <= n,
            v@.len() == i,
            forall|j: int| 0 <= j < i ==> v@[j] == j,
        decreases n - i,
    {
        v.push(i);
        i = i + 1;
    }
    proof {
        assert(v@ =~= seq_range(n as nat));
    }
    v
}

/// A sequence holding the same multiset as `0..n` is a permutation of it:
/// bounded, injective and surjective.
pub proof fn lemma_perm_of_range(p: Seq<usize>, n: nat)
    requires
        n <= usize::MAX,
        p.to_multiset() == seq_range(n).to_multiset(),
    ensures
        p.len() == n,
        forall|i: int| 0 <= i < n ==> (#[trigger] p[i]) < n,
        forall|i: int, j: int|
            0 <= i < n && 0 <= j < n && i != j ==> #[trigger] p[i] != #[trigger] p[j],
        forall|v: usize| v < n ==> #[trigger] p.contains(v),
{
    let rg = seq_range(n);
    p.to_multiset_ensures();
    rg.to_multiset_ensures();
    assert(p.len() == n);
    assert forall|i: int, j: int| 0 <= i < j < n implies rg[i] != rg[j] by {
        assert(rg[i] == i as usize && rg[j] == j as usize);
    }
    assert(rg.no_duplicates());
    rg.lemma_multiset_has_no_duplicates();
    assert forall|i: int| 0 <= i < n implies (#[trigger] p[i]) < n by {
        assert(p.contains(p[i]));
        assert(p.to_multiset().count(p[i]) > 0);
        assert(rg.contains(p[i]));
        let k = choose|k: int| 0 <= k < n && rg[k] == p[i];
        assert(p[i] == k as usize);
    }
    assert forall|i: int, j: int| 0 <= i < n && 0 <= j < n && i != j implies p[i] != p[j] by {
        if p[i] == p[j] {
            let v = p[i];
            let q = p.remove(i);
            assert(q.to_multiset() == p.to_multiset().remove(v));
            let j2: int = if j < i {
                j
            } else {
                j - 1
            };
            assert(q[j2] == v);
            assert(q.contains(v));
            q.to_multiset_ensures();
            assert(q.to_multiset().count(v) > 0);
            assert(p.to_multiset().count(v) >= 2);
            assert(rg.contains(v));
            assert(rg.to_multiset().count(v) == 1);
        }
    }
    assert forall|v: usize| v < n implies #[trigger] p.contains(v) by {
        assert(rg[v as int] == v);
        assert(rg.contains(v));
        assert(rg.to_multiset().count(v) > 0);
        assert(p.to_multiset().count(v) > 0);
    }
}

/// Reindexing a sequence by a bijection preserves its multiset of values.
///
/// The bijection is given by `f` together with its inverse `h`.
pub proof fn lemma_bijection_multiset<T>(
    a: Seq<T>,
    b: Seq<T>,
    f: spec_fn(int) -> int,
    h: spec_fn(int) -> int,
)
    requires
        a.len() == b.len(),
        forall|i: int| 0 <= i < b.len() ==> 0 <= #[trigger] f(i) < a.len(),
        forall|j: int| 0 <= j < a.len() ==> 0 <= #[trigger] h(j) < b.len(),
        forall|i: int| 0 <= i < b.len() ==> h(#[trigger] f(i)) == i,
        forall|j: int| 0 <= j < a.len() ==> f(#[trigger] h(j)) == j,
        forall|i: int| 0 <= i < b.len() ==> b[i] == a[#[trigger] f(i)],
    ensures
        a.to_multiset() == b.to_multiset(),
    decreases a.len(),
{
    broadcast use group_seq_properties;

    let n = a.len() as int;
    if n == 0 {
        assert(a =~= b);
    } else {
        let v = a[n - 1];
        let k = h(n - 1);
        assert(0 <= k < n && f(k) == n - 1);
        assert(b[k] == v);
        let a2 = a.remove(n - 1);
        let b2 = b.remove(k);
        assert(a2.len() == n - 1);
        assert(b2.len() == n - 1);
        let g = |i: int|
            {
                let i0 = if i < k {
                    i
                } else {
                    i + 1
                };
                if f(i0) < n - 1 {
                    f(i0)
                } else {
                    0
                }
            };
        let g2 = |j: int|
            {
                let j0 = if 0 <= j < n - 1 {
                    h(j)
                } else {
                    0
                };
                if j0 < k {
                    j0
                } else {
                    j0 - 1
                }
            };
        assert forall|i: int| 0 <= i < b2.len() implies {
            &&& 0 <= #[trigger] g(i) < a2.len()
            &&& g2(g(i)) == i
            &&& b2[i] == a2[g(i)]
        } by {
            let i0 = if i < k {
                i
            } else {
                i + 1
            };
            assert(0 <= i0 < n && i0 != k);
            assert(h(f(i0)) == i0 && h(f(k)) == k);
            assert(f(i0) != n - 1);
            assert(g(i) == f(i0));
            assert(b2[i] == b[i0]);
            assert(b[i0] == a[f(i0)]);
            assert(g2(g(i)) == if i0 < k {
                i0
            } else {
                i0 - 1
            });
        }
        assert forall|j: int| 0 <= j < a2.len() implies {
            &&& 0 <= #[trigger] g2(j) < b2.len()
            &&& g(g2(j)) == j
        } by {
            let j0 = h(j);
            assert(0 <= j0 < n && f(j0) == j);
            assert(j0 != k) by {
                if j0 == k {
                    assert(j == f(k));
                }
            }
            let i: int = if j0 < k {
                j0
            } else {
                j0 - 1
            };
            assert(g2(j) == i);
            assert(g(i) == f(j0));
        }
        lemma_bijection_multiset(a2, b2, g, g2);
        a.to_multiset_ensures();
        b.to_multiset_ensures();
        assert(a2.to_multiset() == a.to_multiset().remove(v));
        assert(b2.to_multiset() == b.to_multiset().remove(v));
        assert(a.contains(v));
        assert(b.contains(v));
        assert(a.to_multiset().count(v) > 0);
        assert(b.to_multiset().count(v) > 0);
        assert forall|x: T| true implies a.to_multiset().count(x) == b.to_multiset().count(x) by {
            if x == v {
                assert(a.to_multiset().remove(v).count(v) == a.to_multiset().count(v) - 1);
                assert(b.to_multiset().remove(v).count(v) == b.to_multiset().count(v) - 1);
            } else {
                assert(a.to_multiset().remove(v).count(x) == a.to_multiset().count(x));
                assert(b.to_multiset().remove(v).count(x) == b.to_multiset().count(x));
            }
        }
        assert(a.to_multiset() =~= b.to_multiset());
    }
}

} // verus!
