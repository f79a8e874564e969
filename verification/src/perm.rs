//! Permutations of `0..n`, stored as sequences of indices, and finite sums.

use vstd::prelude::*;
use vstd::set_lib::*;

verus! {

/// `a` lists every index below `n` exactly once.
pub open spec fn is_perm(a: Seq<usize>, n: nat) -> bool {
    &&& a.len() == n
    &&& forall|i: int| 0 <= i < n ==> (#[trigger] a[i]) < n
    &&& forall|i: int, j: int| 0 <= i < j < n ==> a[i] != a[j]
}

/// `f(0) + f(1) + ... + f(n - 1)`.
pub open spec fn sum_to(f: spec_fn(int) -> int, n: nat) -> int
    decreases n,
{
    if n == 0 {
        0
    } else {
        sum_to(f, (n - 1) as nat) + f(n - 1)
    }
}

/// `a` with the entries at `i` and `j` exchanged.
pub open spec fn swapped<T>(a: Seq<T>, i: int, j: int) -> Seq<T> {
    a.update(i, a[j]).update(j, a[i])
}

/// Exchanging two entries keeps what a sequence holds.
pub proof fn lemma_swap_keeps_items<T>(a: Seq<T>, i: int, j: int)
    requires
        0 <= i < j < a.len(),
    ensures
        swapped(a, i, j).to_multiset() == a.to_multiset(),
{
    broadcast use vstd::multiset::group_multiset_axioms;

    let b = a.update(i, a[j]);
    vstd::seq_lib::to_multiset_update(a, i, a[j]);
    vstd::seq_lib::to_multiset_update(b, j, a[i]);
    vstd::seq_lib::to_multiset_contains(a, a[i]);
    vstd::seq_lib::to_multiset_contains(a, a[j]);
    assert(swapped(a, i, j).to_multiset() =~= a.to_multiset());
}

/// Two functions that agree below `n` have the same sum.
pub proof fn lemma_sum_ext(f: spec_fn(int) -> int, g: spec_fn(int) -> int, n: nat)
    requires
        forall|i: int| 0 <= i < n ==> #[trigger] f(i) == g(i),
    ensures
        sum_to(f, n) == sum_to(g, n),
    decreases n,
{
    if n > 0 {
        lemma_sum_ext(f, g, (n - 1) as nat);
    }
}

/// Pointwise bounds carry over to sums.
pub proof fn lemma_sum_le(f: spec_fn(int) -> int, g: spec_fn(int) -> int, n: nat)
    requires
        forall|i: int| 0 <= i < n ==> #[trigger] f(i) <= g(i),
    ensures
        sum_to(f, n) <= sum_to(g, n),
    decreases n,
{
    if n > 0 {
        lemma_sum_le(f, g, (n - 1) as nat);
    }
}

/// The sum of two functions is the sum of their sums.
pub proof fn lemma_sum_plus(f: spec_fn(int) -> int, g: spec_fn(int) -> int, n: nat)
    ensures
        sum_to(|i: int| f(i) + g(i), n) == sum_to(f, n) + sum_to(g, n),
    decreases n,
{
    if n > 0 {
        lemma_sum_plus(f, g, (n - 1) as nat);
    }
}

/// A sum of `n` terms, each at most `c` in magnitude, is at most `n * c` in
/// magnitude.
pub proof fn lemma_sum_bound(f: spec_fn(int) -> int, n: nat, c: int)
    requires
        forall|i: int| 0 <= i < n ==> -c <= #[trigger] f(i) <= c,
    ensures
        -(n * c) <= sum_to(f, n) <= n * c,
    decreases n,
{
    if n > 0 {
        lemma_sum_bound(f, (n - 1) as nat, c);
        assert(n * c == (n - 1) * c + c) by (nonlinear_arith);
    } else {
        assert(n * c == 0) by (nonlinear_arith)
            requires
                n == 0,
        ;
    }
}

/// Changing one term changes the sum by the difference.
pub proof fn lemma_sum_update(f: spec_fn(int) -> int, g: spec_fn(int) -> int, n: nat, k: int)
    requires
        0 <= k < n,
        forall|i: int| 0 <= i < n && i != k ==> #[trigger] f(i) == g(i),
    ensures
        sum_to(g, n) == sum_to(f, n) - f(k) + g(k),
    decreases n,
{
    if k == n - 1 {
        lemma_sum_ext(f, g, (n - 1) as nat);
    } else {
        lemma_sum_update(f, g, (n - 1) as nat, k);
    }
}

/// Changing two terms changes the sum by both differences.
pub proof fn lemma_sum_update2(
    f: spec_fn(int) -> int,
    g: spec_fn(int) -> int,
    n: nat,
    k: int,
    l: int,
)
    requires
        0 <= k < n,
        0 <= l < n,
        k != l,
        forall|i: int| 0 <= i < n && i != k && i != l ==> #[trigger] f(i) == g(i),
    ensures
        sum_to(g, n) == sum_to(f, n) - f(k) - f(l) + g(k) + g(l),
{
    let h = |i: int| if i == k { g(k) } else { f(i) };
    lemma_sum_update(f, h, n, k);
    lemma_sum_update(h, g, n, l);
}

/// A permutation reaches every index below `n`.
pub proof fn lemma_perm_reaches(a: Seq<usize>, n: nat, v: int)
    requires
        is_perm(a, n),
        0 <= v < n,
    ensures
        exists|i: int| 0 <= i < n && #[trigger] a[i] == v,
{
    let b = a.map_values(|x: usize| x as int);
    assert(b.no_duplicates());
    b.unique_seq_to_set();
    let full = set_int_range(0, n as int);
    lemma_int_range(0, n as int);
    assert(b.to_set().subset_of(full)) by {
        assert forall|x: int| b.to_set().contains(x) implies full.contains(x) by {
            let i = choose|i: int| 0 <= i < b.len() && b[i] == x;
            assert(a[i] < n);
        }
    }
    lemma_subset_equality(b.to_set(), full);
    assert(b.to_set().contains(v));
    let i = choose|i: int| 0 <= i < b.len() && b[i] == v;
    assert(a[i] == v);
}

/// Exchanging two entries of a permutation gives a permutation.
pub proof fn lemma_swap_keeps_perm(a: Seq<usize>, n: nat, i: int, j: int)
    requires
        is_perm(a, n),
        0 <= i < n,
        0 <= j < n,
    ensures
        is_perm(swapped(a, i, j), n),
{
}

/// Summing over a permutation of the indices gives the plain sum.
pub proof fn lemma_sum_permuted(f: spec_fn(int) -> int, a: Seq<usize>, n: nat)
    requires
        is_perm(a, n),
    ensures
        sum_to(|i: int| f(a[i] as int), n) == sum_to(f, n),
    decreases n,
{
    if n > 0 {
        let m = (n - 1) as nat;
        lemma_perm_reaches(a, n, n - 1);
        let k = choose|k: int| 0 <= k < n && #[trigger] a[k] == n - 1;
        let b = swapped(a, k, n - 1);
        lemma_swap_keeps_perm(a, n, k, n - 1);
        let c = b.take(n - 1);
        assert(is_perm(c, m)) by {
            assert forall|i: int| 0 <= i < m implies (#[trigger] c[i]) < m by {
                assert(c[i] == b[i]);
                assert(b[i] != b[n - 1]);
            }
        }
        lemma_sum_permuted(f, c, m);
        let fa = |i: int| f(a[i] as int);
        let fb = |i: int| f(b[i] as int);
        let fc = |i: int| f(c[i] as int);
        if k != n - 1 {
            lemma_sum_update2(fa, fb, n, k, n - 1);
        } else {
            lemma_sum_ext(fa, fb, n);
        }
        lemma_sum_ext(fb, fc, m);
        assert(sum_to(fb, n) == sum_to(fc, m) + f(n - 1));
    }
}

} // verus!
