//! Enumerations of index pairs, taken from `itertools`, with what is known of
//! their order.

use itertools::Itertools;
use vstd::prelude::*;

verus! {

/// The pairs of positions below `n` whose first is at least `i` and comes
/// before the second, in lexicographic order.
pub open spec fn pairs_from(i: int, n: int) -> Seq<(int, int)>
    decreases n - i,
{
    if i >= n {
        Seq::empty()
    } else {
        Seq::new((n - 1 - i) as nat, |k: int| (i, i + 1 + k)) + pairs_from(i + 1, n)
    }
}

/// All pairs `(i, j)` of positions with `i < j < n`, in lexicographic order.
pub open spec fn ordered_pairs(n: nat) -> Seq<(int, int)> {
    pairs_from(0, n as int)
}

/// The pairs `(k, k + 1)` of neighbouring positions below `n`, in rising
/// order.
pub open spec fn neighbours(n: nat) -> Seq<(int, int)> {
    Seq::new(
        if n == 0 {
            0
        } else {
            (n - 1) as nat
        },
        |k: int| (k, k + 1),
    )
}

/// All pairs `(i, j)` with `i < n` and `j < m`, in lexicographic order.
pub open spec fn grid(n: nat, m: nat) -> Seq<(int, int)> {
    Seq::new(n * m, |k: int| (k / (m as int), k % (m as int)))
}

/// A sequence of pairs of machine integers, as pairs of mathematical ones.
pub open spec fn positions(pairs: Seq<(usize, usize)>) -> Seq<(int, int)> {
    pairs.map_values(|p: (usize, usize)| (p.0 as int, p.1 as int))
}

/// How many pairs `ordered_pairs(n)` holds.
pub open spec fn pair_count(n: nat) -> nat {
    (n * (n - 1) / 2) as nat
}

/// Calls `Itertools::tuple_combinations` on the range `0..n`, for pairs, and
/// collects what it yields. The contract claims that these are the pairs
/// `(i, j)` with `i < j < n`, each once, ordered by `i` and then by `j`.
#[verifier::external_body]
pub(crate) fn index_pairs(n: usize) -> (pairs: Vec<(usize, usize)>)
    requires
        pair_count(n as nat) <= usize::MAX,
    ensures
        positions(pairs@) == ordered_pairs(n as nat),
{
    (0..n).tuple_combinations().collect()
}

/// Calls `Itertools::tuple_windows` on the range `0..n`, for pairs, and
/// collects what it yields. The contract claims that these are the pairs
/// `(k, k + 1)` with `k + 1 < n`, in rising order.
#[verifier::external_body]
pub(crate) fn index_neighbours(n: usize) -> (pairs: Vec<(usize, usize)>)
    ensures
        positions(pairs@) == neighbours(n as nat),
{
    (0..n).tuple_windows().collect()
}

/// Calls `Itertools::cartesian_product` on the ranges `0..n` and `0..m`, and
/// collects what it yields. The contract claims that these are the pairs
/// `(i, j)` with `i < n` and `j < m`, each once, ordered by `i` and then by
/// `j`.
#[verifier::external_body]
pub(crate) fn index_grid(n: usize, m: usize) -> (pairs: Vec<(usize, usize)>)
    requires
        n * m <= usize::MAX,
    ensures
        positions(pairs@) == grid(n as nat, m as nat),
{
    (0..n).cartesian_product(0..m).collect()
}

/// Both components of each pair of `pairs_from(i, n)` are positions below
/// `n`, the first at least `i` and smaller than the second.
pub proof fn lemma_pairs_from_bounds(i: int, n: int, k: int)
    requires
        0 <= i,
        0 <= k < pairs_from(i, n).len(),
    ensures
        i <= pairs_from(i, n)[k].0 < pairs_from(i, n)[k].1 < n,
    decreases n - i,
{
    if i < n {
        let head = Seq::new((n - 1 - i) as nat, |k: int| (i, i + 1 + k));
        if k >= head.len() {
            lemma_pairs_from_bounds(i + 1, n, k - head.len());
        }
    }
}

/// Each pair `(p, q)` with `i <= p < q < n` occurs in `pairs_from(i, n)`.
pub proof fn lemma_pairs_from_complete(i: int, n: int, p: int, q: int) -> (k: int)
    requires
        0 <= i <= p < q < n,
    ensures
        0 <= k < pairs_from(i, n).len(),
        pairs_from(i, n)[k] == (p, q),
    decreases n - i,
{
    let head = Seq::new((n - 1 - i) as nat, |k: int| (i, i + 1 + k));
    if p == i {
        q - i - 1
    } else {
        head.len() + lemma_pairs_from_complete(i + 1, n, p, q)
    }
}

/// Each pair of `ordered_pairs(n)` is a pair of positions below `n`, the
/// first before the second.
pub proof fn lemma_ordered_pairs_bounds(n: nat)
    ensures
        forall|k: int|
            0 <= k < ordered_pairs(n).len() ==> 0 <= (#[trigger] ordered_pairs(n)[k]).0
                < ordered_pairs(n)[k].1 < n,
{
    assert forall|k: int| 0 <= k < ordered_pairs(n).len() implies 0 <= (#[trigger] ordered_pairs(
        n,
    )[k]).0 < ordered_pairs(n)[k].1 < n by {
        lemma_pairs_from_bounds(0, n as int, k);
    }
}

/// `ordered_pairs(n)` has as many pairs as `pair_count(n)` says.
pub proof fn lemma_pairs_from_len(i: int, n: int)
    requires
        0 <= i <= n,
    ensures
        pairs_from(i, n).len() == (n - i) * (n - i - 1) / 2,
    decreases n - i,
{
    if i < n {
        lemma_pairs_from_len(i + 1, n);
        let d = n - i;
        assert((d - 1) + (d - 1) * (d - 2) / 2 == d * (d - 1) / 2) by (nonlinear_arith);
    } else {
        assert((n - i) * (n - i - 1) / 2 == 0) by (nonlinear_arith)
            requires
                n - i == 0,
        ;
    }
}

} // verus!
