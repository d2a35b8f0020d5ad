//! What the clauses of a comparison mean: the assignments that satisfy
//! them are those under which the number on the left is at most, or less
//! than, the number on the right.

use crate::cnf::Formula;
use crate::comparator::{
    boundary, breaks, chain, comparator_variables, equalities, less_than_clauses,
    less_than_equal_clauses, missing, padded_lhs, padded_rhs, padding, ripple, ties,
};
use crate::logic::{
    agree, clause_holds, clause_within, fresh, lemma_agree_satisfies, lemma_clause_1,
    lemma_clause_2, lemma_clause_3, lemma_satisfies_1, lemma_satisfies_concat,
    lemma_satisfies_pairs, lemma_within_concat, lemma_within_pairs, pair_holds, pair_within,
    satisfies, variables_within, within,
};
use vstd::arithmetic::power2::{lemma_pow2_unfold, pow2};
use vstd::prelude::*;

verus! {

/// The number whose binary digits, the least significant first, are the
/// values of `bits` under `a`.
pub open spec fn value(a: spec_fn(int) -> bool, bits: Seq<int>) -> nat
    decreases bits.len(),
{
    if bits.len() == 0 {
        0
    } else {
        (if a(bits[0]) {
            1nat
        } else {
            0nat
        }) + 2 * value(a, bits.drop_first())
    }
}

/// The bit at position `k` of a list counts two to the power of `k`: a list
/// with one more bit at its end spells the number of the shorter list, and
/// two to the power of its length more if the new bit is true.
pub proof fn lemma_value_push(a: spec_fn(int) -> bool, bits: Seq<int>, x: int)
    ensures
        value(a, bits.push(x)) == value(a, bits) + (if a(x) {
            pow2(bits.len())
        } else {
            0nat
        }),
    decreases bits.len(),
{
    let longer = bits.push(x);
    if bits.len() == 0 {
        assert(longer.drop_first() =~= Seq::<int>::empty());
        assert(value(a, longer.drop_first()) == 0);
        assert(pow2(0) == 1) by {
            vstd::arithmetic::power2::lemma2_to64();
        }
    } else {
        assert(longer[0] == bits[0]);
        assert(longer.drop_first() =~= bits.drop_first().push(x));
        lemma_value_push(a, bits.drop_first(), x);
        lemma_pow2_unfold(bits.len());
    }
}

/// A tie implies the tie before it.
pub open spec fn chained(a: spec_fn(int) -> bool, ts: Seq<int>) -> bool {
    forall|i: int| 0 <= i < ts.len() - 1 ==> (a(ts[i + 1]) ==> a(#[trigger] ts[i]))
}

/// Where there is a tie, the two bits are equal.
pub open spec fn tied(a: spec_fn(int) -> bool, ts: Seq<int>, lhs: Seq<int>, rhs: Seq<int>) -> bool {
    forall|i: int| 0 <= i < ts.len() ==> (a(#[trigger] ts[i]) ==> a(lhs[i]) == a(rhs[i]))
}

/// Where a tie ends, the bit on the left is false and the bit on the right
/// is true.
pub open spec fn broken(
    a: spec_fn(int) -> bool,
    ts: Seq<int>,
    lhs: Seq<int>,
    rhs: Seq<int>,
) -> bool {
    forall|i: int|
        0 <= i < ts.len() - 1 ==> (a(#[trigger] ts[i]) && !a(ts[i + 1]) ==> !a(lhs[i + 1]) && a(
            rhs[i + 1],
        ))
}

/// What the clauses of `ripple` say of an assignment: a tie implies the tie
/// before it and the equality of its two bits, and where the ties end, or
/// where there is none at the first bit, the bit on the left is false and
/// the bit on the right is true.
pub open spec fn ripples(
    a: spec_fn(int) -> bool,
    ts: Seq<int>,
    lhs: Seq<int>,
    rhs: Seq<int>,
) -> bool {
    &&& chained(a, ts)
    &&& tied(a, ts, lhs, rhs)
    &&& broken(a, ts, lhs, rhs)
    &&& !a(ts[0]) ==> !a(lhs[0]) && a(rhs[0])
}

/// The clauses of `chain` are satisfied exactly when each tie implies the
/// tie before it.
pub proof fn lemma_chain(a: spec_fn(int) -> bool, ts: Seq<int>, n: nat)
    requires
        variables_within(ts, n),
    ensures
        satisfies(a, chain(ts)) <==> chained(a, ts),
{
    let c = chain(ts);
    assert forall|i: int| 0 <= i < ts.len() - 1 implies (clause_holds(a, #[trigger] c[i]) <==> (a(
        ts[i + 1],
    ) ==> a(ts[i]))) by {
        assert(1 <= ts[i + 1] <= n && 1 <= ts[i] <= n);
        lemma_clause_2(a, -ts[i + 1], ts[i]);
    }
    if satisfies(a, c) {
        assert forall|i: int| 0 <= i < ts.len() - 1 && a(ts[i + 1]) implies a(
            #[trigger] ts[i],
        ) by {
            assert(clause_holds(a, c[i]));
        }
    }
    if chained(a, ts) {
        assert forall|k: int| 0 <= k < c.len() implies clause_holds(a, #[trigger] c[k]) by {
            assert(a(ts[k + 1]) ==> a(ts[k]));
        }
    }
}

/// The clauses of `equalities` are satisfied exactly when the two bits are
/// equal wherever there is a tie.
pub proof fn lemma_equalities(
    a: spec_fn(int) -> bool,
    ts: Seq<int>,
    lhs: Seq<int>,
    rhs: Seq<int>,
    n: nat,
)
    requires
        ts.len() == lhs.len() == rhs.len(),
        variables_within(ts, n),
        variables_within(lhs, n),
        variables_within(rhs, n),
    ensures
        satisfies(a, equalities(ts, lhs, rhs)) <==> tied(a, ts, lhs, rhs),
{
    let e = equalities(ts, lhs, rhs);
    lemma_satisfies_pairs(a, e, ts.len());
    assert forall|i: int| 0 <= i < ts.len() implies (#[trigger] pair_holds(a, e, i) <==> (a(
        ts[i],
    ) ==> a(lhs[i]) == a(rhs[i]))) by {
        assert(1 <= ts[i] <= n && 1 <= lhs[i] <= n && 1 <= rhs[i] <= n);
        lemma_clause_3(a, -ts[i], lhs[i], -rhs[i]);
        lemma_clause_3(a, -ts[i], -lhs[i], rhs[i]);
    }
    if satisfies(a, e) {
        assert forall|i: int| 0 <= i < ts.len() && a(#[trigger] ts[i]) implies a(lhs[i]) == a(
            rhs[i],
        ) by {
            assert(pair_holds(a, e, i));
        }
    }
    if tied(a, ts, lhs, rhs) {
        assert forall|i: int| 0 <= i < ts.len() implies #[trigger] pair_holds(a, e, i) by {
            assert(a(ts[i]) ==> a(lhs[i]) == a(rhs[i]));
        }
    }
}

/// The clauses of `breaks` are satisfied exactly when, wherever a tie ends,
/// the bit on the left is false and the bit on the right is true.
pub proof fn lemma_breaks(
    a: spec_fn(int) -> bool,
    ts: Seq<int>,
    lhs: Seq<int>,
    rhs: Seq<int>,
    n: nat,
)
    requires
        ts.len() == lhs.len() == rhs.len(),
        ts.len() > 0,
        variables_within(ts, n),
        variables_within(lhs, n),
        variables_within(rhs, n),
    ensures
        satisfies(a, breaks(ts, lhs, rhs)) <==> broken(a, ts, lhs, rhs),
{
    let b = breaks(ts, lhs, rhs);
    lemma_satisfies_pairs(a, b, (ts.len() - 1) as nat);
    assert forall|i: int| 0 <= i < ts.len() - 1 implies (#[trigger] pair_holds(a, b, i) <==> (a(
        ts[i],
    ) && !a(ts[i + 1]) ==> !a(lhs[i + 1]) && a(rhs[i + 1]))) by {
        assert(1 <= ts[i] <= n && 1 <= ts[i + 1] <= n && 1 <= lhs[i + 1] <= n && 1 <= rhs[i + 1]
            <= n);
        lemma_clause_3(a, -ts[i], ts[i + 1], -lhs[i + 1]);
        lemma_clause_3(a, -ts[i], ts[i + 1], rhs[i + 1]);
    }
    if satisfies(a, b) {
        assert forall|i: int| 0 <= i < ts.len() - 1 && a(#[trigger] ts[i]) && !a(
            ts[i + 1],
        ) implies !a(lhs[i + 1]) && a(rhs[i + 1]) by {
            assert(pair_holds(a, b, i));
        }
    }
    if broken(a, ts, lhs, rhs) {
        assert forall|i: int| 0 <= i < ts.len() - 1 implies #[trigger] pair_holds(a, b, i) by {
            assert(a(ts[i]) && !a(ts[i + 1]) ==> !a(lhs[i + 1]) && a(rhs[i + 1]));
        }
    }
}

/// The clauses of `boundary` are satisfied exactly when, without a tie at
/// the first bit, the bit on the left is false and the bit on the right is
/// true.
pub proof fn lemma_boundary(
    a: spec_fn(int) -> bool,
    ts: Seq<int>,
    lhs: Seq<int>,
    rhs: Seq<int>,
    n: nat,
)
    requires
        ts.len() == lhs.len() == rhs.len(),
        ts.len() > 0,
        variables_within(ts, n),
        variables_within(lhs, n),
        variables_within(rhs, n),
    ensures
        satisfies(a, boundary(ts, lhs, rhs)) <==> (!a(ts[0]) ==> !a(lhs[0]) && a(rhs[0])),
{
    let f = boundary(ts, lhs, rhs);
    assert(1 <= ts[0] <= n && 1 <= lhs[0] <= n && 1 <= rhs[0] <= n);
    lemma_clause_2(a, ts[0], -lhs[0]);
    lemma_clause_2(a, ts[0], rhs[0]);
    if satisfies(a, f) {
        assert(clause_holds(a, f[0]) && clause_holds(a, f[1]));
    }
}

/// The clauses of `ripple` are satisfied exactly by the assignments of which
/// `ripples` holds.
pub proof fn lemma_ripple(
    a: spec_fn(int) -> bool,
    ts: Seq<int>,
    lhs: Seq<int>,
    rhs: Seq<int>,
    n: nat,
)
    requires
        ts.len() == lhs.len() == rhs.len(),
        ts.len() > 0,
        variables_within(ts, n),
        variables_within(lhs, n),
        variables_within(rhs, n),
    ensures
        satisfies(a, ripple(ts, lhs, rhs)) <==> ripples(a, ts, lhs, rhs),
{
    let c = chain(ts);
    let e = equalities(ts, lhs, rhs);
    let b = breaks(ts, lhs, rhs);
    let f = boundary(ts, lhs, rhs);
    lemma_satisfies_concat(a, c + e + b, f);
    lemma_satisfies_concat(a, c + e, b);
    lemma_satisfies_concat(a, c, e);
    lemma_chain(a, ts, n);
    lemma_equalities(a, ts, lhs, rhs, n);
    lemma_breaks(a, ts, lhs, rhs, n);
    lemma_boundary(a, ts, lhs, rhs, n);
}

/// The number of the first `k` bits of a list that starts with its most
/// significant bit: twice the number of the first `k - 1`, and the bit `k - 1`.
pub proof fn lemma_value_step(a: spec_fn(int) -> bool, bits: Seq<int>, k: int)
    requires
        1 <= k <= bits.len(),
    ensures
        value(a, bits.take(k).reverse()) == (if a(bits[k - 1]) {
            1nat
        } else {
            0nat
        }) + 2 * value(a, bits.take(k - 1).reverse()),
{
    let x = bits.take(k).reverse();
    assert(x[0] == bits[k - 1]);
    assert(x.drop_first() =~= bits.take(k - 1).reverse());
}

/// Under an assignment of which `ripples` holds, the first `k` bits on the
/// left are the same number as those on the right if the tie `k - 1` is
/// true, and a smaller one if it is false.
pub proof fn lemma_ripple_prefix(
    a: spec_fn(int) -> bool,
    ts: Seq<int>,
    lhs: Seq<int>,
    rhs: Seq<int>,
    k: int,
)
    requires
        ts.len() == lhs.len() == rhs.len(),
        1 <= k <= ts.len(),
        ripples(a, ts, lhs, rhs),
    ensures
        a(ts[k - 1]) ==> value(a, lhs.take(k).reverse()) == value(a, rhs.take(k).reverse()),
        !a(ts[k - 1]) ==> value(a, lhs.take(k).reverse()) < value(a, rhs.take(k).reverse()),
    decreases k,
{
    lemma_value_step(a, lhs, k);
    lemma_value_step(a, rhs, k);
    if k == 1 {
        assert(lhs.take(0).reverse() =~= Seq::<int>::empty());
        assert(rhs.take(0).reverse() =~= Seq::<int>::empty());
        assert(a(ts[0]) ==> a(lhs[0]) == a(rhs[0]));
    } else {
        lemma_ripple_prefix(a, ts, lhs, rhs, k - 1);
        let i = k - 2;
        assert(a(ts[i + 1]) ==> a(ts[i]));
        assert(a(ts[k - 1]) ==> a(lhs[k - 1]) == a(rhs[k - 1]));
        assert(a(ts[i]) && !a(ts[i + 1]) ==> !a(lhs[i + 1]) && a(rhs[i + 1]));
    }
}

/// A list of variables that are all false is the number zero.
pub proof fn lemma_value_zero(a: spec_fn(int) -> bool, bits: Seq<int>)
    requires
        forall|k: int| 0 <= k < bits.len() ==> !a(#[trigger] bits[k]),
    ensures
        value(a, bits) == 0,
    decreases bits.len(),
{
    if bits.len() > 0 {
        assert(!a(bits[0]));
        assert forall|k: int| 0 <= k < bits.drop_first().len() implies !a(
            #[trigger] bits.drop_first()[k],
        ) by {
            assert(!a(bits[k + 1]));
        }
        lemma_value_zero(a, bits.drop_first());
    }
}

/// Variables that are false, put after the most significant bit of a number,
/// leave the number as it is.
pub proof fn lemma_value_padded(a: spec_fn(int) -> bool, bits: Seq<int>, zeros: Seq<int>)
    requires
        forall|k: int| 0 <= k < zeros.len() ==> !a(#[trigger] zeros[k]),
    ensures
        value(a, bits + zeros) == value(a, bits),
    decreases bits.len(),
{
    if bits.len() == 0 {
        assert(bits + zeros =~= zeros);
        lemma_value_zero(a, zeros);
    } else {
        assert((bits + zeros)[0] == bits[0]);
        assert((bits + zeros).drop_first() =~= bits.drop_first() + zeros);
        lemma_value_padded(a, bits.drop_first(), zeros);
    }
}

/// The clauses of `padding` are satisfied exactly when each of the `k`
/// variables after the first `base` is false.
pub proof fn lemma_padding(a: spec_fn(int) -> bool, base: nat, k: nat)
    ensures
        satisfies(a, padding(base, k)) <==> (forall|i: int|
            0 <= i < k ==> !a(#[trigger] fresh(base, k)[i])),
{
    let p = padding(base, k);
    let v = fresh(base, k);
    assert forall|i: int| 0 <= i < k implies (clause_holds(a, #[trigger] p[i]) <==> !a(v[i])) by {
        lemma_clause_1(a, -v[i]);
    }
    if satisfies(a, p) {
        assert forall|i: int| 0 <= i < k implies !a(#[trigger] v[i]) by {
            assert(clause_holds(a, p[i]));
        }
    }
}

/// The last tie of a comparison that starts from a formula of `base`
/// variables.
pub open spec fn last_tie(base: nat, l: nat, r: nat) -> int {
    (base + comparator_variables(l, r)) as int
}

/// Every assignment that satisfies the clauses of `less_than_equal` makes
/// the number on the left at most the number on the right, and the last tie
/// true exactly when the two are equal.
pub proof fn lemma_less_than_equal_sound(
    a: spec_fn(int) -> bool,
    base: nat,
    lhs: Seq<int>,
    rhs: Seq<int>,
)
    requires
        variables_within(lhs, base),
        variables_within(rhs, base),
        lhs.len() + rhs.len() > 0,
        satisfies(a, less_than_equal_clauses(base, lhs, rhs)),
    ensures
        value(a, lhs) <= value(a, rhs),
        a(last_tie(base, lhs.len(), rhs.len())) <==> value(a, lhs) == value(a, rhs),
{
    reveal(less_than_equal_clauses);
    let pl = missing(rhs.len(), lhs.len());
    let pr = missing(lhs.len(), rhs.len());
    let top = base + comparator_variables(lhs.len(), rhs.len());
    let ts = ties(base, lhs, rhs);
    let l = padded_lhs(base, lhs, rhs);
    let r = padded_rhs(base, lhs, rhs);
    lemma_satisfies_concat(
        a,
        padding(base, pl) + padding(base + pl, pr),
        ripple(ts, l.reverse(), r.reverse()),
    );
    lemma_satisfies_concat(a, padding(base, pl), padding(base + pl, pr));
    lemma_padding(a, base, pl);
    lemma_padding(a, base + pl, pr);
    lemma_value_padded(a, lhs, fresh(base, pl));
    lemma_value_padded(a, rhs, fresh(base + pl, pr));
    lemma_comparison_within(base, lhs, rhs);
    lemma_comparison(a, ts, l, r, top);
}

/// Every assignment that satisfies the comparison of two lists of equal
/// length makes the number on the left at most the number on the right, and
/// the last tie true exactly when the two are equal.
pub proof fn lemma_comparison(
    a: spec_fn(int) -> bool,
    ts: Seq<int>,
    lhs: Seq<int>,
    rhs: Seq<int>,
    n: nat,
)
    requires
        ts.len() == lhs.len() == rhs.len(),
        ts.len() > 0,
        variables_within(ts, n),
        variables_within(lhs.reverse(), n),
        variables_within(rhs.reverse(), n),
        satisfies(a, ripple(ts, lhs.reverse(), rhs.reverse())),
    ensures
        value(a, lhs) <= value(a, rhs),
        a(ts.last()) <==> value(a, lhs) == value(a, rhs),
{
    let w = ts.len() as int;
    lemma_ripple(a, ts, lhs.reverse(), rhs.reverse(), n);
    lemma_ripple_prefix(a, ts, lhs.reverse(), rhs.reverse(), w);
    assert(lhs.reverse().take(w).reverse() =~= lhs);
    assert(rhs.reverse().take(w).reverse() =~= rhs);
}

/// The lists that a comparison works on hold variables of the formula that
/// it leaves.
pub proof fn lemma_comparison_within(base: nat, lhs: Seq<int>, rhs: Seq<int>)
    requires
        variables_within(lhs, base),
        variables_within(rhs, base),
    ensures
        variables_within(
            ties(base, lhs, rhs),
            base + comparator_variables(lhs.len(), rhs.len()),
        ),
        variables_within(
            padded_lhs(base, lhs, rhs).reverse(),
            base + comparator_variables(lhs.len(), rhs.len()),
        ),
        variables_within(
            padded_rhs(base, lhs, rhs).reverse(),
            base + comparator_variables(lhs.len(), rhs.len()),
        ),
{
    let top = base + comparator_variables(lhs.len(), rhs.len());
    let l = padded_lhs(base, lhs, rhs);
    let r = padded_rhs(base, lhs, rhs);
    assert forall|k: int| 0 <= k < l.len() implies 1 <= #[trigger] l.reverse()[k] <= top by {
        let j = l.len() - 1 - k;
        if j < lhs.len() {
            assert(1 <= lhs[j] <= base);
        }
    }
    assert forall|k: int| 0 <= k < r.len() implies 1 <= #[trigger] r.reverse()[k] <= top by {
        let j = r.len() - 1 - k;
        if j < rhs.len() {
            assert(1 <= rhs[j] <= base);
        }
    }
}

/// Every assignment that satisfies the clauses of `less_than` makes the
/// number on the left less than the number on the right.
pub proof fn lemma_less_than_sound(
    a: spec_fn(int) -> bool,
    base: nat,
    lhs: Seq<int>,
    rhs: Seq<int>,
)
    requires
        variables_within(lhs, base),
        variables_within(rhs, base),
        lhs.len() + rhs.len() > 0,
        satisfies(a, less_than_clauses(base, lhs, rhs)),
    ensures
        value(a, lhs) < value(a, rhs),
{
    reveal(less_than_clauses);
    let tie = last_tie(base, lhs.len(), rhs.len());
    lemma_satisfies_concat(a, less_than_equal_clauses(base, lhs, rhs), seq![seq![-tie]]);
    lemma_satisfies_1(a, seq![-tie]);
    lemma_clause_1(a, -tie);
    lemma_less_than_equal_sound(a, base, lhs, rhs);
}

/// The first `k` bits of two lists have the same values under `a`.
pub open spec fn equal_prefix(
    a: spec_fn(int) -> bool,
    lhs: Seq<int>,
    rhs: Seq<int>,
    k: int,
) -> bool {
    forall|j: int| 0 <= j < k ==> a(#[trigger] lhs[j]) == a(rhs[j])
}

/// Assignments that agree on the variables of a number agree on the number.
pub proof fn lemma_value_agree(
    a: spec_fn(int) -> bool,
    b: spec_fn(int) -> bool,
    n: nat,
    bits: Seq<int>,
)
    requires
        agree(a, b, n),
        variables_within(bits, n),
    ensures
        value(a, bits) == value(b, bits),
    decreases bits.len(),
{
    if bits.len() > 0 {
        assert(1 <= bits[0] <= n);
        assert(a(bits[0]) == b(bits[0]));
        assert forall|k: int| 0 <= k < bits.drop_first().len() implies 1
            <= #[trigger] bits.drop_first()[k] <= n by {
            assert(1 <= bits[k + 1] <= n);
        }
        lemma_value_agree(a, b, n, bits.drop_first());
    }
}

/// Lists whose first `k` bits have the same values spell the same number
/// with them.
pub proof fn lemma_prefix_equal(a: spec_fn(int) -> bool, lhs: Seq<int>, rhs: Seq<int>, k: int)
    requires
        0 <= k <= lhs.len(),
        k <= rhs.len(),
        equal_prefix(a, lhs, rhs, k),
    ensures
        value(a, lhs.take(k).reverse()) == value(a, rhs.take(k).reverse()),
    decreases k,
{
    if k == 0 {
        assert(lhs.take(0).reverse() =~= Seq::<int>::empty());
        assert(rhs.take(0).reverse() =~= Seq::<int>::empty());
    } else {
        lemma_prefix_equal(a, lhs, rhs, k - 1);
        lemma_value_step(a, lhs, k);
        lemma_value_step(a, rhs, k);
        assert(a(lhs[k - 1]) == a(rhs[k - 1]));
    }
}

/// If the first `j` bits on the left spell a larger number than those on the
/// right, so do the first `m`, for every `m` from `j` on.
pub proof fn lemma_greater_persists(
    a: spec_fn(int) -> bool,
    lhs: Seq<int>,
    rhs: Seq<int>,
    j: int,
    m: int,
)
    requires
        0 <= j <= m <= lhs.len(),
        m <= rhs.len(),
        value(a, lhs.take(j).reverse()) > value(a, rhs.take(j).reverse()),
    ensures
        value(a, lhs.take(m).reverse()) > value(a, rhs.take(m).reverse()),
    decreases m - j,
{
    if j < m {
        lemma_greater_persists(a, lhs, rhs, j, m - 1);
        lemma_value_step(a, lhs, m);
        lemma_value_step(a, rhs, m);
    }
}

/// If two lists, each with its most significant bit first, have the same
/// first `k` bits, and the next bit is true on the left and false on the
/// right, the left one spells the larger number.
pub proof fn lemma_first_difference(
    a: spec_fn(int) -> bool,
    lhs: Seq<int>,
    rhs: Seq<int>,
    k: int,
    m: int,
)
    requires
        0 <= k < m <= lhs.len(),
        m <= rhs.len(),
        equal_prefix(a, lhs, rhs, k),
        a(lhs[k]),
        !a(rhs[k]),
    ensures
        value(a, lhs.take(m).reverse()) > value(a, rhs.take(m).reverse()),
{
    lemma_prefix_equal(a, lhs, rhs, k);
    lemma_value_step(a, lhs, k + 1);
    lemma_value_step(a, rhs, k + 1);
    lemma_greater_persists(a, lhs, rhs, k + 1, m);
}

/// Two lists whose first `m` bits do not all have the same values differ
/// first at some bit.
pub proof fn lemma_least_difference(
    a: spec_fn(int) -> bool,
    lhs: Seq<int>,
    rhs: Seq<int>,
    m: int,
) -> (k: int)
    requires
        0 <= m,
        !equal_prefix(a, lhs, rhs, m),
    ensures
        0 <= k < m,
        equal_prefix(a, lhs, rhs, k),
        a(lhs[k]) != a(rhs[k]),
    decreases m,
{
    if equal_prefix(a, lhs, rhs, m - 1) {
        assert(a(lhs[m - 1]) != a(rhs[m - 1])) by {
            if a(lhs[m - 1]) == a(rhs[m - 1]) {
                assert forall|j: int| 0 <= j < m implies a(#[trigger] lhs[j]) == a(rhs[j]) by {
                    if j < m - 1 {
                        assert(a(lhs[j]) == a(rhs[j]));
                    }
                }
            }
        }
        m - 1
    } else {
        lemma_least_difference(a, lhs, rhs, m - 1)
    }
}

/// The assignment that is `a` but for the ties of a comparison: the tie of
/// bit `i` is true exactly when the bits `0..=i` are equal on both sides.
pub open spec fn with_ties(
    a: spec_fn(int) -> bool,
    under: nat,
    lhs: Seq<int>,
    rhs: Seq<int>,
) -> spec_fn(int) -> bool {
    |v: int|
        if under < v <= under + lhs.len() {
            equal_prefix(a, lhs, rhs, v - under)
        } else {
            a(v)
        }
}

/// Lists with the same first `k` bits and the same bit `k` have the same
/// first `k + 1` bits.
pub proof fn lemma_longer_prefix(a: spec_fn(int) -> bool, lhs: Seq<int>, rhs: Seq<int>, k: int)
    requires
        0 <= k,
        equal_prefix(a, lhs, rhs, k),
        a(lhs[k]) == a(rhs[k]),
    ensures
        equal_prefix(a, lhs, rhs, k + 1),
{
    assert forall|j: int| 0 <= j < k + 1 implies a(#[trigger] lhs[j]) == a(rhs[j]) by {
        if j < k {
            assert(a(lhs[j]) == a(rhs[j]));
        }
    }
}

/// Under `b` the bits have their values under `a`, and the tie of bit `i` is
/// true exactly when the bits `0..=i` are equal on both sides under `a`.
pub open spec fn ties_mean(
    a: spec_fn(int) -> bool,
    b: spec_fn(int) -> bool,
    ts: Seq<int>,
    lhs: Seq<int>,
    rhs: Seq<int>,
) -> bool {
    forall|i: int|
        0 <= i < ts.len() ==> b(#[trigger] ts[i]) == equal_prefix(a, lhs, rhs, i + 1) && b(lhs[i])
            == a(lhs[i]) && b(rhs[i]) == a(rhs[i])
}

/// Where the two lists first differ under `a`, the bit on the left is false.
pub open spec fn left_lower(a: spec_fn(int) -> bool, lhs: Seq<int>, rhs: Seq<int>) -> bool {
    forall|k: int|
        0 <= k < lhs.len() && equal_prefix(a, lhs, rhs, k) && a(#[trigger] lhs[k]) != a(rhs[k])
            ==> !a(lhs[k]) && a(rhs[k])
}

/// Ties that mean what they should imply the ties before them.
pub proof fn lemma_ties_chained(
    a: spec_fn(int) -> bool,
    b: spec_fn(int) -> bool,
    ts: Seq<int>,
    lhs: Seq<int>,
    rhs: Seq<int>,
)
    requires
        ts.len() == lhs.len() == rhs.len(),
        ties_mean(a, b, ts, lhs, rhs),
    ensures
        chained(b, ts),
{
    assert forall|i: int| 0 <= i < ts.len() - 1 && b(ts[i + 1]) implies b(#[trigger] ts[i]) by {
        assert(b(ts[i + 1]) == equal_prefix(a, lhs, rhs, i + 2));
        assert(b(ts[i]) == equal_prefix(a, lhs, rhs, i + 1));
        assert forall|j: int| 0 <= j < i + 1 implies a(#[trigger] lhs[j]) == a(rhs[j]) by {
            assert(equal_prefix(a, lhs, rhs, i + 2));
        }
    }
}

/// Ties that mean what they should imply that their bits are equal.
pub proof fn lemma_ties_tied(
    a: spec_fn(int) -> bool,
    b: spec_fn(int) -> bool,
    ts: Seq<int>,
    lhs: Seq<int>,
    rhs: Seq<int>,
)
    requires
        ts.len() == lhs.len() == rhs.len(),
        ties_mean(a, b, ts, lhs, rhs),
    ensures
        tied(b, ts, lhs, rhs),
{
    assert forall|i: int| 0 <= i < ts.len() && b(#[trigger] ts[i]) implies b(lhs[i]) == b(
        rhs[i],
    ) by {
        assert(equal_prefix(a, lhs, rhs, i + 1));
        assert(a(lhs[i]) == a(rhs[i]));
    }
}

/// Where ties that mean what they should end, the bit on the left is false
/// and the bit on the right is true, if the left list is lower where the two
/// first differ.
pub proof fn lemma_ties_broken(
    a: spec_fn(int) -> bool,
    b: spec_fn(int) -> bool,
    ts: Seq<int>,
    lhs: Seq<int>,
    rhs: Seq<int>,
)
    requires
        ts.len() == lhs.len() == rhs.len(),
        ts.len() > 0,
        ties_mean(a, b, ts, lhs, rhs),
        left_lower(a, lhs, rhs),
    ensures
        broken(b, ts, lhs, rhs),
        !b(ts[0]) ==> !b(lhs[0]) && b(rhs[0]),
{
    assert forall|i: int| 0 <= i < ts.len() - 1 && b(#[trigger] ts[i]) && !b(
        ts[i + 1],
    ) implies !b(lhs[i + 1]) && b(rhs[i + 1]) by {
        assert(b(ts[i + 1]) == equal_prefix(a, lhs, rhs, i + 2));
        assert(equal_prefix(a, lhs, rhs, i + 1));
        if a(lhs[i + 1]) == a(rhs[i + 1]) {
            lemma_longer_prefix(a, lhs, rhs, i + 1);
        }
        assert(a(lhs[i + 1]) != a(rhs[i + 1]));
    }
    if !b(ts[0]) {
        assert(equal_prefix(a, lhs, rhs, 0));
        if a(lhs[0]) == a(rhs[0]) {
            lemma_longer_prefix(a, lhs, rhs, 0);
        }
        assert(a(lhs[0]) != a(rhs[0]));
    }
}

/// If the number on the left is at most the number on the right, then where
/// the two lists, each with its most significant bit first, first differ,
/// the bit on the left is false.
pub proof fn lemma_left_lower(a: spec_fn(int) -> bool, lhs: Seq<int>, rhs: Seq<int>)
    requires
        lhs.len() == rhs.len(),
        value(a, lhs.reverse()) <= value(a, rhs.reverse()),
    ensures
        left_lower(a, lhs, rhs),
{
    let w = lhs.len() as int;
    assert(lhs.take(w) =~= lhs);
    assert(rhs.take(w) =~= rhs);
    assert forall|k: int|
        0 <= k < w && equal_prefix(a, lhs, rhs, k) && a(#[trigger] lhs[k]) != a(
            rhs[k],
        ) implies !a(lhs[k]) && a(rhs[k]) by {
        if a(lhs[k]) {
            lemma_first_difference(a, lhs, rhs, k, w);
        }
    }
}

/// Lists, each with its most significant bit first, spell the same number
/// exactly when all their bits are equal.
pub proof fn lemma_equal_numbers(a: spec_fn(int) -> bool, lhs: Seq<int>, rhs: Seq<int>)
    requires
        lhs.len() == rhs.len(),
    ensures
        equal_prefix(a, lhs, rhs, lhs.len() as int) <==> value(a, lhs.reverse()) == value(
            a,
            rhs.reverse(),
        ),
{
    let w = lhs.len() as int;
    assert(lhs.take(w) =~= lhs);
    assert(rhs.take(w) =~= rhs);
    if equal_prefix(a, lhs, rhs, w) {
        lemma_prefix_equal(a, lhs, rhs, w);
    } else {
        let k = lemma_least_difference(a, lhs, rhs, w);
        if a(lhs[k]) {
            lemma_first_difference(a, lhs, rhs, k, w);
        } else {
            assert forall|j: int| 0 <= j < k implies a(#[trigger] rhs[j]) == a(lhs[j]) by {
                assert(a(lhs[j]) == a(rhs[j]));
            }
            lemma_first_difference(a, rhs, lhs, k, w);
        }
    }
}

/// Every assignment under which the number on the left is at most the number
/// on the right satisfies the comparison of two lists of equal length, once
/// the ties have their values. `lhs` and `rhs` have their least significant
/// bit first, and the ties are the variables after the first `under`.
pub proof fn lemma_comparison_complete(
    a: spec_fn(int) -> bool,
    under: nat,
    lhs: Seq<int>,
    rhs: Seq<int>,
)
    requires
        lhs.len() == rhs.len(),
        lhs.len() > 0,
        variables_within(lhs, under),
        variables_within(rhs, under),
        value(a, lhs) <= value(a, rhs),
    ensures
        satisfies(
            with_ties(a, under, lhs.reverse(), rhs.reverse()),
            ripple(fresh(under, lhs.len()), lhs.reverse(), rhs.reverse()),
        ),
        with_ties(a, under, lhs.reverse(), rhs.reverse())((under + lhs.len()) as int) <==> value(
            a,
            lhs,
        ) == value(a, rhs),
{
    let w = lhs.len() as int;
    let l = lhs.reverse();
    let r = rhs.reverse();
    let ts = fresh(under, lhs.len());
    let b = with_ties(a, under, l, r);
    assert(l.reverse() =~= lhs);
    assert(r.reverse() =~= rhs);
    assert(ties_mean(a, b, ts, l, r)) by {
        assert forall|i: int| 0 <= i < w implies b(#[trigger] ts[i]) == equal_prefix(
            a,
            l,
            r,
            i + 1,
        ) && b(l[i]) == a(l[i]) && b(r[i]) == a(r[i]) by {
            assert(1 <= lhs[w - 1 - i] <= under);
            assert(1 <= rhs[w - 1 - i] <= under);
        }
    }
    lemma_left_lower(a, l, r);
    lemma_ties_chained(a, b, ts, l, r);
    lemma_ties_tied(a, b, ts, l, r);
    lemma_ties_broken(a, b, ts, l, r);
    assert(variables_within(ts, under + lhs.len()));
    lemma_owns_reverse_within(lhs, under + lhs.len());
    lemma_owns_reverse_within(rhs, under + lhs.len());
    lemma_ripple(b, ts, l, r, under + lhs.len());
    lemma_equal_numbers(a, l, r);
    assert(b(ts[w - 1]) == equal_prefix(a, l, r, w));
}

/// The assignment that is `a` but for the `k` variables after the first
/// `base`, which are false.
pub open spec fn with_zeros(a: spec_fn(int) -> bool, base: nat, k: nat) -> spec_fn(int) -> bool {
    |v: int|
        if base < v <= base + k {
            false
        } else {
            a(v)
        }
}

/// The assignment that satisfies a comparison and is `a` on the variables of
/// the formula that the comparison is added to: the variables that fill the
/// shorter list are false, and each tie says whether the bits down to its
/// own are equal.
pub open spec fn compared(
    a: spec_fn(int) -> bool,
    base: nat,
    lhs: Seq<int>,
    rhs: Seq<int>,
) -> spec_fn(int) -> bool {
    with_ties(
        with_zeros(a, base, missing(rhs.len(), lhs.len()) + missing(lhs.len(), rhs.len())),
        base + missing(rhs.len(), lhs.len()) + missing(lhs.len(), rhs.len()),
        padded_lhs(base, lhs, rhs).reverse(),
        padded_rhs(base, lhs, rhs).reverse(),
    )
}

/// Every assignment under which the number on the left is at most the number
/// on the right can be given values for the new variables of
/// `less_than_equal` so that it satisfies its clauses. The result differs
/// from `a` on no variable of the first `base`, and makes the last tie true
/// exactly when the two numbers are equal.
pub proof fn lemma_less_than_equal_complete(
    a: spec_fn(int) -> bool,
    base: nat,
    lhs: Seq<int>,
    rhs: Seq<int>,
)
    requires
        variables_within(lhs, base),
        variables_within(rhs, base),
        lhs.len() + rhs.len() > 0,
        value(a, lhs) <= value(a, rhs),
    ensures
        agree(a, compared(a, base, lhs, rhs), base),
        satisfies(compared(a, base, lhs, rhs), less_than_equal_clauses(base, lhs, rhs)),
        compared(a, base, lhs, rhs)(last_tie(base, lhs.len(), rhs.len())) <==> value(a, lhs)
            == value(a, rhs),
{
    reveal(less_than_equal_clauses);
    let pl = missing(rhs.len(), lhs.len());
    let pr = missing(lhs.len(), rhs.len());
    let under = base + pl + pr;
    let zeroed = with_zeros(a, base, pl + pr);
    let l = padded_lhs(base, lhs, rhs);
    let r = padded_rhs(base, lhs, rhs);
    let ts = ties(base, lhs, rhs);
    let b = compared(a, base, lhs, rhs);
    // The numbers are the same with the shorter list filled up.
    assert(agree(a, zeroed, base));
    lemma_value_agree(a, zeroed, base, lhs);
    lemma_value_agree(a, zeroed, base, rhs);
    lemma_value_padded(zeroed, lhs, fresh(base, pl));
    lemma_value_padded(zeroed, rhs, fresh(base + pl, pr));
    assert(variables_within(l, under)) by {
        assert forall|k: int| 0 <= k < l.len() implies 1 <= #[trigger] l[k] <= under by {
            if k < lhs.len() {
                assert(1 <= lhs[k] <= base);
            }
        }
    }
    assert(variables_within(r, under)) by {
        assert forall|k: int| 0 <= k < r.len() implies 1 <= #[trigger] r[k] <= under by {
            if k < rhs.len() {
                assert(1 <= rhs[k] <= base);
            }
        }
    }
    lemma_comparison_complete(zeroed, under, l, r);
    // The variables that fill the shorter list are false.
    assert(agree(zeroed, b, under));
    lemma_padding(b, base, pl);
    lemma_padding(b, base + pl, pr);
    assert forall|i: int| 0 <= i < pl implies !b(#[trigger] fresh(base, pl)[i]) by {
        assert(zeroed(fresh(base, pl)[i]) == b(fresh(base, pl)[i]));
    }
    assert forall|i: int| 0 <= i < pr implies !b(#[trigger] fresh(base + pl, pr)[i]) by {
        assert(zeroed(fresh(base + pl, pr)[i]) == b(fresh(base + pl, pr)[i]));
    }
    lemma_satisfies_concat(b, padding(base, pl), padding(base + pl, pr));
    lemma_satisfies_concat(
        b,
        padding(base, pl) + padding(base + pl, pr),
        ripple(ts, l.reverse(), r.reverse()),
    );
    assert(agree(a, b, base)) by {
        assert forall|v: int| 1 <= v <= base implies #[trigger] a(v) == b(v) by {
            assert(zeroed(v) == b(v));
        }
    }
}

/// Every assignment under which the number on the left is less than the
/// number on the right can be given values for the new variables of
/// `less_than` so that it satisfies its clauses. The result differs from `a`
/// on no variable of the first `base`.
pub proof fn lemma_less_than_complete(
    a: spec_fn(int) -> bool,
    base: nat,
    lhs: Seq<int>,
    rhs: Seq<int>,
)
    requires
        variables_within(lhs, base),
        variables_within(rhs, base),
        lhs.len() + rhs.len() > 0,
        value(a, lhs) < value(a, rhs),
    ensures
        agree(a, compared(a, base, lhs, rhs), base),
        satisfies(compared(a, base, lhs, rhs), less_than_clauses(base, lhs, rhs)),
{
    reveal(less_than_clauses);
    let b = compared(a, base, lhs, rhs);
    let tie = last_tie(base, lhs.len(), rhs.len());
    lemma_less_than_equal_complete(a, base, lhs, rhs);
    lemma_clause_1(b, -tie);
    lemma_satisfies_1(b, seq![-tie]);
    lemma_satisfies_concat(b, less_than_equal_clauses(base, lhs, rhs), seq![seq![-tie]]);
}

/// What the clauses of `less_than_equal` mean when added to a formula: the
/// assignments that satisfy the longer formula are those that satisfy the
/// shorter one and make the number on the left at most the number on the
/// right, each with values for the new variables.
pub proof fn lemma_less_than_equal(f: Formula, lhs: Seq<int>, rhs: Seq<int>)
    requires
        f.wf(),
        f.owns_all(lhs),
        f.owns_all(rhs),
        lhs.len() + rhs.len() > 0,
    ensures
        forall|a: spec_fn(int) -> bool| #[trigger]
            satisfies(a, f.clauses + less_than_equal_clauses(f.variables, lhs, rhs)) ==> satisfies(
                a,
                f.clauses,
            ) && value(a, lhs) <= value(a, rhs),
        forall|a: spec_fn(int) -> bool| #[trigger]
            satisfies(a, f.clauses) && value(a, lhs) <= value(a, rhs) ==> exists|
                b: spec_fn(int) -> bool,
            | #[trigger]
                agree(a, b, f.variables) && satisfies(
                    b,
                    f.clauses + less_than_equal_clauses(f.variables, lhs, rhs),
                ),
{
    let added = less_than_equal_clauses(f.variables, lhs, rhs);
    assert forall|a: spec_fn(int) -> bool| #[trigger]
        satisfies(a, f.clauses + added) implies satisfies(a, f.clauses) && value(a, lhs) <= value(
        a,
        rhs,
    ) by {
        lemma_satisfies_concat(a, f.clauses, added);
        lemma_less_than_equal_sound(a, f.variables, lhs, rhs);
    }
    assert forall|a: spec_fn(int) -> bool| #[trigger]
        satisfies(a, f.clauses) && value(a, lhs) <= value(a, rhs) implies exists|
        b: spec_fn(int) -> bool,
    | #[trigger] agree(a, b, f.variables) && satisfies(b, f.clauses + added) by {
        let b = compared(a, f.variables, lhs, rhs);
        lemma_less_than_equal_complete(a, f.variables, lhs, rhs);
        f.lemma_wf_within();
        lemma_agree_satisfies(a, b, f.variables, f.clauses);
        lemma_satisfies_concat(b, f.clauses, added);
        assert(agree(a, b, f.variables) && satisfies(b, f.clauses + added));
    }
}

/// What the clauses of `less_than` mean when added to a formula: the
/// assignments that satisfy the longer formula are those that satisfy the
/// shorter one and make the number on the left less than the number on the
/// right, each with values for the new variables.
pub proof fn lemma_less_than(f: Formula, lhs: Seq<int>, rhs: Seq<int>)
    requires
        f.wf(),
        f.owns_all(lhs),
        f.owns_all(rhs),
        lhs.len() + rhs.len() > 0,
    ensures
        forall|a: spec_fn(int) -> bool| #[trigger]
            satisfies(a, f.clauses + less_than_clauses(f.variables, lhs, rhs)) ==> satisfies(
                a,
                f.clauses,
            ) && value(a, lhs) < value(a, rhs),
        forall|a: spec_fn(int) -> bool| #[trigger]
            satisfies(a, f.clauses) && value(a, lhs) < value(a, rhs) ==> exists|
                b: spec_fn(int) -> bool,
            | #[trigger]
                agree(a, b, f.variables) && satisfies(
                    b,
                    f.clauses + less_than_clauses(f.variables, lhs, rhs),
                ),
{
    let added = less_than_clauses(f.variables, lhs, rhs);
    assert forall|a: spec_fn(int) -> bool| #[trigger]
        satisfies(a, f.clauses + added) implies satisfies(a, f.clauses) && value(a, lhs) < value(
        a,
        rhs,
    ) by {
        lemma_satisfies_concat(a, f.clauses, added);
        lemma_less_than_sound(a, f.variables, lhs, rhs);
    }
    assert forall|a: spec_fn(int) -> bool| #[trigger]
        satisfies(a, f.clauses) && value(a, lhs) < value(a, rhs) implies exists|
        b: spec_fn(int) -> bool,
    | #[trigger] agree(a, b, f.variables) && satisfies(b, f.clauses + added) by {
        let b = compared(a, f.variables, lhs, rhs);
        lemma_less_than_complete(a, f.variables, lhs, rhs);
        f.lemma_wf_within();
        lemma_agree_satisfies(a, b, f.variables, f.clauses);
        lemma_satisfies_concat(b, f.clauses, added);
        assert(agree(a, b, f.variables) && satisfies(b, f.clauses + added));
    }
}

/// The clauses of `ripple` speak of the ties and of the bits only.
pub proof fn lemma_ripple_within(ts: Seq<int>, lhs: Seq<int>, rhs: Seq<int>, n: nat)
    requires
        ts.len() == lhs.len() == rhs.len(),
        ts.len() > 0,
        variables_within(ts, n),
        variables_within(lhs, n),
        variables_within(rhs, n),
    ensures
        within(ripple(ts, lhs, rhs), n),
{
    let c = chain(ts);
    let e = equalities(ts, lhs, rhs);
    let b = breaks(ts, lhs, rhs);
    let f = boundary(ts, lhs, rhs);
    assert forall|k: int| 0 <= k < c.len() implies clause_within(#[trigger] c[k], n) by {
        assert(1 <= ts[k] <= n && 1 <= ts[k + 1] <= n);
    }
    assert forall|i: int| 0 <= i < ts.len() implies #[trigger] pair_within(e, i, n) by {
        assert(1 <= ts[i] <= n && 1 <= lhs[i] <= n && 1 <= rhs[i] <= n);
    }
    lemma_within_pairs(e, ts.len(), n);
    assert forall|i: int| 0 <= i < ts.len() - 1 implies #[trigger] pair_within(b, i, n) by {
        assert(1 <= ts[i] <= n && 1 <= ts[i + 1] <= n && 1 <= lhs[i + 1] <= n && 1 <= rhs[i + 1]
            <= n);
    }
    lemma_within_pairs(b, (ts.len() - 1) as nat, n);
    assert(1 <= ts[0] <= n && 1 <= lhs[0] <= n && 1 <= rhs[0] <= n);
    assert(within(f, n));
    lemma_within_concat(c, e, n);
    lemma_within_concat(c + e, b, n);
    lemma_within_concat(c + e + b, f, n);
}

/// The clauses of `less_than_equal` and of `less_than` speak of the two
/// lists and of their own new variables only.
pub proof fn lemma_comparison_clauses_within(base: nat, lhs: Seq<int>, rhs: Seq<int>)
    requires
        variables_within(lhs, base),
        variables_within(rhs, base),
        lhs.len() + rhs.len() > 0,
    ensures
        within(
            less_than_equal_clauses(base, lhs, rhs),
            base + comparator_variables(lhs.len(), rhs.len()),
        ),
        within(
            less_than_clauses(base, lhs, rhs),
            base + comparator_variables(lhs.len(), rhs.len()),
        ),
{
    reveal(less_than_equal_clauses);
    reveal(less_than_clauses);
    let pl = missing(rhs.len(), lhs.len());
    let pr = missing(lhs.len(), rhs.len());
    let top = base + comparator_variables(lhs.len(), rhs.len());
    let ts = ties(base, lhs, rhs);
    let l = padded_lhs(base, lhs, rhs);
    let r = padded_rhs(base, lhs, rhs);
    lemma_comparison_within(base, lhs, rhs);
    lemma_ripple_within(ts, l.reverse(), r.reverse(), top);
    assert(within(padding(base, pl), top));
    assert(within(padding(base + pl, pr), top));
    lemma_within_concat(padding(base, pl), padding(base + pl, pr), top);
    lemma_within_concat(
        padding(base, pl) + padding(base + pl, pr),
        ripple(ts, l.reverse(), r.reverse()),
        top,
    );
    assert(within(seq![seq![-(top as int)]], top));
    lemma_within_concat(less_than_equal_clauses(base, lhs, rhs), seq![seq![-(top as int)]], top);
}

/// A list of variables within some bound is within it in reverse.
pub proof fn lemma_owns_reverse_within(vs: Seq<int>, n: nat)
    requires
        exists|m: nat| m <= n && variables_within(vs, m),
    ensures
        variables_within(vs.reverse(), n),
{
    let m = choose|m: nat| m <= n && variables_within(vs, m);
    assert forall|k: int| 0 <= k < vs.reverse().len() implies 1 <= #[trigger] vs.reverse()[k]
        <= n by {
        assert(1 <= vs[vs.len() - 1 - k] <= m);
    }
}

} // verus!
