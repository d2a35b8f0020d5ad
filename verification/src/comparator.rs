//! The constraint that one list of variables, read as a binary number, is at
//! most, or less than, another: a chain of tie variables that runs from the
//! most significant bit down.

use crate::cnf::{indices, Formula, Variable, CNF};
use crate::comparator::meaning::{lemma_less_than, lemma_less_than_equal, value};
use crate::logic::{agree, fresh, interleaved, lemma_append_assoc, lemma_extend, satisfies};
use crate::tuples::{index_neighbours, neighbours, positions};
use vstd::prelude::*;
use vstd::slice::slice_to_vec;

pub mod meaning;

verus! {

/// One clause for each of the `k` variables that follow the first `base`:
/// the variable is false.
pub open spec fn padding(base: nat, k: nat) -> Seq<Seq<int>> {
    Seq::new(k, |i: int| seq![-(base + 1 + i)])
}

/// A tie implies the tie before it.
pub open spec fn chain(ts: Seq<int>) -> Seq<Seq<int>> {
    neighbours(ts.len()).map_values(|p: (int, int)| seq![-ts[p.1], ts[p.0]])
}

/// Where there is a tie, the two bits are equal.
pub open spec fn equalities(ts: Seq<int>, lhs: Seq<int>, rhs: Seq<int>) -> Seq<Seq<int>> {
    interleaved(
        ts.len(),
        |i: int| seq![-ts[i], lhs[i], -rhs[i]],
        |i: int| seq![-ts[i], -lhs[i], rhs[i]],
    )
}

/// Where a tie ends, the bit on the left is false and the bit on the right
/// is true.
pub open spec fn breaks(ts: Seq<int>, lhs: Seq<int>, rhs: Seq<int>) -> Seq<Seq<int>> {
    interleaved(
        (ts.len() - 1) as nat,
        |i: int| seq![-ts[i], ts[i + 1], -lhs[i + 1]],
        |i: int| seq![-ts[i], ts[i + 1], rhs[i + 1]],
    )
}

/// Without a tie at the first bit, the bit on the left is false and the bit
/// on the right is true.
pub open spec fn boundary(ts: Seq<int>, lhs: Seq<int>, rhs: Seq<int>) -> Seq<Seq<int>> {
    seq![seq![ts[0], -lhs[0]], seq![ts[0], rhs[0]]]
}

/// The clauses of the comparison of two lists of equal length, each with its
/// most significant bit first. The tie `ts[i]` says that the bits `0..=i`
/// are equal on both sides.
pub open spec fn ripple(ts: Seq<int>, lhs: Seq<int>, rhs: Seq<int>) -> Seq<Seq<int>> {
    chain(ts) + equalities(ts, lhs, rhs) + breaks(ts, lhs, rhs) + boundary(ts, lhs, rhs)
}

/// How many elements a list of `have` elements lacks to `len`.
pub open spec fn missing(len: nat, have: nat) -> nat {
    if len > have {
        (len - have) as nat
    } else {
        0
    }
}

/// The length of the longer of two lists of `l` and `r` elements.
pub open spec fn width(l: nat, r: nat) -> nat {
    if l < r {
        r
    } else {
        l
    }
}

/// How many variables a comparison of lists of `l` and `r` elements issues:
/// those that fill the shorter list, and one tie for each bit.
pub open spec fn comparator_variables(l: nat, r: nat) -> nat {
    missing(r, l) + missing(l, r) + width(l, r)
}

/// The left list, filled up to the length of the right one.
pub open spec fn padded_lhs(base: nat, lhs: Seq<int>, rhs: Seq<int>) -> Seq<int> {
    lhs + fresh(base, missing(rhs.len(), lhs.len()))
}

/// The right list, filled up to the length of the left one.
pub open spec fn padded_rhs(base: nat, lhs: Seq<int>, rhs: Seq<int>) -> Seq<int> {
    rhs + fresh(base + missing(rhs.len(), lhs.len()), missing(lhs.len(), rhs.len()))
}

/// The ties of a comparison that starts from a formula of `base` variables.
pub open spec fn ties(base: nat, lhs: Seq<int>, rhs: Seq<int>) -> Seq<int> {
    fresh(
        base + missing(rhs.len(), lhs.len()) + missing(lhs.len(), rhs.len()),
        width(lhs.len(), rhs.len()),
    )
}

/// The clauses that `less_than_equal` adds to a formula of `base` variables
/// for the lists `lhs` and `rhs`, each with its least significant bit first.
/// The shorter list is filled up with new variables, each forced to be
/// false; then both are compared from the most significant bit down.
#[verifier::opaque]
pub open spec fn less_than_equal_clauses(base: nat, lhs: Seq<int>, rhs: Seq<int>) -> Seq<Seq<int>> {
    padding(base, missing(rhs.len(), lhs.len())) + padding(
        base + missing(rhs.len(), lhs.len()),
        missing(lhs.len(), rhs.len()),
    ) + ripple(
        ties(base, lhs, rhs),
        padded_lhs(base, lhs, rhs).reverse(),
        padded_rhs(base, lhs, rhs).reverse(),
    )
}

/// The clauses that `less_than` adds: those of `less_than_equal`, and one
/// that denies the last tie.
#[verifier::opaque]
pub open spec fn less_than_clauses(base: nat, lhs: Seq<int>, rhs: Seq<int>) -> Seq<Seq<int>> {
    less_than_equal_clauses(base, lhs, rhs) + seq![
        seq![-(base + comparator_variables(lhs.len(), rhs.len()))],
    ]
}

/// The elements of `bits` in reverse order.
fn reversed(bits: &Vec<Variable>) -> (r: Vec<Variable>)
    ensures
        indices(r@) == indices(bits@).reverse(),
        r@.len() == bits@.len(),
{
    let mut r: Vec<Variable> = Vec::new();
    let n = bits.len();
    for i in 0..n
        invariant
            n == bits@.len(),
            r@.len() == i,
            forall|k: int| 0 <= k < i ==> (#[trigger] r@[k])@ == bits@[n - 1 - k]@,
    {
        r.push(bits[n - 1 - i]);
    }
    assert(indices(r@) =~= indices(bits@).reverse());
    r
}

impl CNF {
    /// Fills `bits` up to `len` elements with new variables, each forced to be
    /// false.
    fn pad(&mut self, bits: &mut Vec<Variable>, len: usize)
        requires
            old(self).wf(),
            old(self)@.owns_all(indices(old(bits)@)),
            old(self)@.variables + missing(len as nat, old(bits)@.len()) <= isize::MAX,
        ensures
            final(self)@ == old(self)@.with_variables(
                missing(len as nat, old(bits)@.len()),
            ).with_clauses(padding(old(self)@.variables, missing(len as nat, old(bits)@.len()))),
            indices(final(bits)@) == indices(old(bits)@) + fresh(
                old(self)@.variables,
                missing(len as nat, old(bits)@.len()),
            ),
            final(bits)@.len() == old(bits)@.len() + missing(len as nat, old(bits)@.len()),
            final(self).wf(),
            final(self)@.owns_all(indices(final(bits)@)),
    {
        let ghost base = self@.variables;
        let ghost start = bits@.len();
        let ghost given = indices(bits@);
        assert(self@.clauses =~= old(self)@.clauses + padding(base, 0));
        assert(indices(bits@) =~= given + fresh(base, 0));
        while bits.len() < len
            invariant
                self.wf(),
                start <= bits@.len(),
                bits@.len() <= len || bits@.len() == start,
                base + missing(len as nat, start) <= isize::MAX,
                self@.variables == base + (bits@.len() - start),
                self@.names == old(self)@.names,
                self@.clauses == old(self)@.clauses + padding(base, (bits@.len() - start) as nat),
                indices(bits@) == given + fresh(base, (bits@.len() - start) as nat),
                self@.owns_all(indices(bits@)),
            decreases len - bits@.len(),
        {
            let ghost k = (bits@.len() - start) as nat;
            let ghost before = self@;
            let ghost bits_before = indices(bits@);
            let temp = self.new_variable();
            bits.push(temp);
            self.add_clause(temp.negated().clause());
            proof {
                assert(padding(base, k).push(seq![-temp@]) =~= padding(base, k + 1));
                assert(self@.clauses =~= old(self)@.clauses + padding(base, k + 1));
                assert(indices(bits@) =~= bits_before.push(temp@));
                assert(fresh(base, k).push(temp@) =~= fresh(base, k + 1));
                assert(indices(bits@) =~= given + fresh(base, k + 1));
                before.lemma_owns_all_more(self@, bits_before);
            }
        }
    }

    /// Issues `n` variables.
    pub(crate) fn new_variables(&mut self, n: usize) -> (vs: Vec<Variable>)
        requires
            old(self).wf(),
            old(self)@.variables + n <= isize::MAX,
        ensures
            final(self)@ == old(self)@.with_variables(n as nat),
            indices(vs@) == fresh(old(self)@.variables, n as nat),
            vs@.len() == n,
            final(self).wf(),
            final(self)@.owns_all(indices(vs@)),
    {
        let ghost base = self@.variables;
        let mut vs: Vec<Variable> = Vec::new();
        for i in 0..n
            invariant
                self.wf(),
                base + n <= isize::MAX,
                self@ == old(self)@.with_variables(i as nat),
                base == old(self)@.variables,
                vs@.len() == i,
                forall|k: int| 0 <= k < i ==> (#[trigger] vs@[k])@ == base + 1 + k,
        {
            let v = self.new_variable();
            vs.push(v);
        }
        assert(indices(vs@) =~= fresh(base, n as nat));
        vs
    }

    /// Adds the clauses that compare `lhs` and `rhs`, each with its most
    /// significant bit first, through the ties `ts`.
    fn add_ripple(&mut self, ts: &Vec<Variable>, lhs: &Vec<Variable>, rhs: &Vec<Variable>)
        requires
            old(self).wf(),
            old(self)@.owns_all(indices(ts@)),
            old(self)@.owns_all(indices(lhs@)),
            old(self)@.owns_all(indices(rhs@)),
            ts@.len() == lhs@.len() == rhs@.len(),
            ts@.len() > 0,
        ensures
            final(self)@ == old(self)@.with_clauses(
                ripple(indices(ts@), indices(lhs@), indices(rhs@)),
            ),
            final(self).wf(),
    {
        let ghost t = indices(ts@);
        let ghost l = indices(lhs@);
        let ghost r = indices(rhs@);
        let ghost start = self@.clauses;
        let n = ts.len();

        // A tie implies the tie before it.
        let windows = index_neighbours(n);
        for k in 0..windows.len()
            invariant
                self.wf(),
                self@.owns_all(t),
                t == indices(ts@),
                n == ts@.len(),
                positions(windows@) == neighbours(n as nat),
                start == old(self)@.clauses,
                self@ == old(self)@.with_clauses(chain(t).take(k as int)),
        {
            let (i, j) = windows[k];
            assert(positions(windows@)[k as int] == (i as int, j as int));
            assert(1 <= t[i as int] <= self@.variables && 1 <= t[j as int] <= self@.variables);
            self.add_clause(ts[j].negated().or(ts[i]));
            proof {
                lemma_extend(start, chain(t), k as int);
            }
        }
        assert(chain(t).take(windows.len() as int) =~= chain(t));

        // Where there is a tie, the two bits are equal.
        let ghost done = start + chain(t);
        for i in 0..n
            invariant
                self.wf(),
                self@.owns_all(t),
                self@.owns_all(l),
                self@.owns_all(r),
                t == indices(ts@),
                l == indices(lhs@),
                r == indices(rhs@),
                n == ts@.len() == lhs@.len() == rhs@.len(),
                self@.variables == old(self)@.variables,
                self@.names == old(self)@.names,
                done == start + chain(t),
                self@.clauses == done + equalities(t, l, r).take(2 * i),
        {
            assert(1 <= t[i as int] <= self@.variables);
            assert(1 <= l[i as int] <= self@.variables);
            assert(1 <= r[i as int] <= self@.variables);
            assert(t[i as int] == ts@[i as int]@ && l[i as int] == lhs@[i as int]@ && r[i as int]
                == rhs@[i as int]@);
            let ghost e = equalities(t, l, r);
            let first = ts[i].negated().or(lhs[i]).with_negated(rhs[i]);
            assert(first@ =~= e[2 * i]);
            self.add_clause(first);
            let second = ts[i].negated().or_not(lhs[i]).with_variable(rhs[i]);
            assert(second@ =~= e[2 * i + 1]);
            self.add_clause(second);
            proof {
                lemma_extend(done, e, 2 * i);
                lemma_extend(done, e, 2 * i + 1);
            }
        }
        assert(equalities(t, l, r).take(2 * n) =~= equalities(t, l, r));

        // Where a tie ends, the left bit is false and the right bit is true.
        let ghost done = start + chain(t) + equalities(t, l, r);
        for i in 1..n
            invariant
                self.wf(),
                self@.owns_all(t),
                self@.owns_all(l),
                self@.owns_all(r),
                t == indices(ts@),
                l == indices(lhs@),
                r == indices(rhs@),
                n == ts@.len() == lhs@.len() == rhs@.len(),
                self@.variables == old(self)@.variables,
                self@.names == old(self)@.names,
                done == start + chain(t) + equalities(t, l, r),
                self@.clauses == done + breaks(t, l, r).take(2 * (i - 1)),
        {
            assert(1 <= t[i as int] <= self@.variables);
            assert(1 <= t[i - 1] <= self@.variables);
            assert(1 <= l[i as int] <= self@.variables);
            assert(1 <= r[i as int] <= self@.variables);
            assert(t[i as int] == ts@[i as int]@ && l[i as int] == lhs@[i as int]@ && r[i as int]
                == rhs@[i as int]@ && t[i - 1] == ts@[i - 1]@);
            let ghost b = breaks(t, l, r);
            let first = ts[i - 1].negated().or(ts[i]).with_negated(lhs[i]);
            assert(first@ =~= b[2 * (i - 1)]);
            self.add_clause(first);
            let second = ts[i - 1].negated().or(ts[i]).with_variable(rhs[i]);
            assert(second@ =~= b[2 * (i - 1) + 1]);
            self.add_clause(second);
            proof {
                lemma_extend(done, b, 2 * (i - 1));
                lemma_extend(done, b, 2 * (i - 1) + 1);
            }
        }
        assert(breaks(t, l, r).take(2 * (n - 1)) =~= breaks(t, l, r));

        // Without a tie at the first bit, the same holds there.
        let ghost done = start + chain(t) + equalities(t, l, r) + breaks(t, l, r);
        assert(1 <= t[0] <= self@.variables);
        assert(1 <= l[0] <= self@.variables);
        assert(1 <= r[0] <= self@.variables);
        assert(t[0] == ts@[0]@ && l[0] == lhs@[0]@ && r[0] == rhs@[0]@);
        self.add_clause(ts[0].or_not(lhs[0]));
        self.add_clause(ts[0].or(rhs[0]));
        assert(self@.clauses =~= done + boundary(t, l, r));
        proof {
            lemma_append_assoc(start, chain(t), equalities(t, l, r));
            lemma_append_assoc(start, chain(t) + equalities(t, l, r), breaks(t, l, r));
            lemma_append_assoc(
                start,
                chain(t) + equalities(t, l, r) + breaks(t, l, r),
                boundary(t, l, r),
            );
        }
    }

    /// Adds the comparison of `lhs_bits` and `rhs_bits` and returns the last
    /// tie, which is true exactly when the two numbers are equal.
    fn less_than_equal_aux(&mut self, lhs_bits: &[Variable], rhs_bits: &[Variable]) -> (tie:
        Variable)
        requires
            old(self).wf(),
            old(self)@.owns_all(indices(lhs_bits@)),
            old(self)@.owns_all(indices(rhs_bits@)),
            lhs_bits@.len() + rhs_bits@.len() > 0,
            old(self)@.variables + comparator_variables(lhs_bits@.len(), rhs_bits@.len())
                <= isize::MAX,
        ensures
            final(self)@ == old(self)@.with_variables(
                comparator_variables(lhs_bits@.len(), rhs_bits@.len()),
            ).with_clauses(
                less_than_equal_clauses(
                    old(self)@.variables,
                    indices(lhs_bits@),
                    indices(rhs_bits@),
                ),
            ),
            tie@ == final(self)@.variables,
            final(self).wf(),
    {
        let ghost base = self@.variables;
        let ghost l = indices(lhs_bits@);
        let ghost r = indices(rhs_bits@);
        let ghost start = self@.clauses;
        proof {
            reveal(less_than_equal_clauses);
        }
        let mut lhs = slice_to_vec(lhs_bits);
        let mut rhs = slice_to_vec(rhs_bits);

        self.pad(&mut lhs, rhs_bits.len());
        proof {
            old(self)@.lemma_owns_all_more(self@, r);
        }
        let ghost first = padding(base, missing(r.len(), l.len()));
        self.pad(&mut rhs, lhs_bits.len());
        let ghost second = padding(
            base + missing(r.len(), l.len()),
            missing(l.len(), r.len()),
        );
        proof {
            lemma_append_assoc(start, first, second);
        }
        let ghost after_pad = self@;

        let lhs = reversed(&lhs);
        let rhs = reversed(&rhs);
        assert(lhs@.len() == width(l.len(), r.len()) && rhs@.len() == lhs@.len());
        let ts = self.new_variables(lhs.len());
        assert(ts@.len() == indices(ts@).len());
        proof {
            assert(indices(lhs@).reverse().reverse() =~= indices(lhs@));
            assert(indices(rhs@).reverse().reverse() =~= indices(rhs@));
            after_pad.lemma_owns_all_more(self@, padded_lhs(base, l, r));
            after_pad.lemma_owns_all_more(self@, padded_rhs(base, l, r));
            lemma_owns_reverse(self@, padded_lhs(base, l, r));
            lemma_owns_reverse(self@, padded_rhs(base, l, r));
        }
        self.add_ripple(&ts, &lhs, &rhs);
        proof {
            lemma_append_assoc(
                start,
                first + second,
                ripple(indices(ts@), indices(lhs@), indices(rhs@)),
            );
        }
        let tie = ts[ts.len() - 1];
        assert(tie@ == indices(ts@)[ts@.len() - 1]);
        tie
    }

    /// Constrains the formula so that the number `lhs_bits` is at most the
    /// number `rhs_bits`. Each list holds the bits of a number, the least
    /// significant first; the shorter list counts as filled up with zeros.
    ///
    /// The variables of the formula must stay within what this machine can
    /// number. What the added clauses mean does not depend on that limit:
    /// [`meaning::lemma_less_than_equal_sound`] and
    /// [`meaning::lemma_less_than_equal_complete`] show it of the clauses
    /// themselves, for all lists of bits.
    pub fn less_than_equal(&mut self, lhs_bits: &[Variable], rhs_bits: &[Variable])
        requires
            old(self).wf(),
            old(self)@.owns_all(indices(lhs_bits@)),
            old(self)@.owns_all(indices(rhs_bits@)),
            lhs_bits@.len() + rhs_bits@.len() > 0,
            old(self)@.variables + comparator_variables(lhs_bits@.len(), rhs_bits@.len())
                <= isize::MAX,
        ensures
            final(self)@ == old(self)@.with_variables(
                comparator_variables(lhs_bits@.len(), rhs_bits@.len()),
            ).with_clauses(
                less_than_equal_clauses(
                    old(self)@.variables,
                    indices(lhs_bits@),
                    indices(rhs_bits@),
                ),
            ),
            final(self).wf(),
            forall|a: spec_fn(int) -> bool| #[trigger]
                satisfies(a, final(self)@.clauses) ==> satisfies(a, old(self)@.clauses) && value(
                    a,
                    indices(lhs_bits@),
                ) <= value(a, indices(rhs_bits@)),
            forall|a: spec_fn(int) -> bool| #[trigger]
                satisfies(a, old(self)@.clauses) && value(a, indices(lhs_bits@)) <= value(
                    a,
                    indices(rhs_bits@),
                ) ==> exists|b: spec_fn(int) -> bool| #[trigger]
                    agree(a, b, old(self)@.variables) && satisfies(b, final(self)@.clauses),
    {
        proof {
            lemma_less_than_equal(old(self)@, indices(lhs_bits@), indices(rhs_bits@));
        }
        self.less_than_equal_aux(lhs_bits, rhs_bits);
    }

    /// Constrains the formula so that the number `lhs_bits` is less than the
    /// number `rhs_bits`. Each list holds the bits of a number, the least
    /// significant first; the shorter list counts as filled up with zeros.
    ///
    /// The variables of the formula must stay within what this machine can
    /// number. What the added clauses mean does not depend on that limit:
    /// [`meaning::lemma_less_than_sound`] and
    /// [`meaning::lemma_less_than_complete`] show it of the clauses
    /// themselves, for all lists of bits.
    pub fn less_than(&mut self, lhs_bits: &[Variable], rhs_bits: &[Variable])
        requires
            old(self).wf(),
            old(self)@.owns_all(indices(lhs_bits@)),
            old(self)@.owns_all(indices(rhs_bits@)),
            lhs_bits@.len() + rhs_bits@.len() > 0,
            old(self)@.variables + comparator_variables(lhs_bits@.len(), rhs_bits@.len())
                <= isize::MAX,
        ensures
            final(self)@ == old(self)@.with_variables(
                comparator_variables(lhs_bits@.len(), rhs_bits@.len()),
            ).with_clauses(
                less_than_clauses(old(self)@.variables, indices(lhs_bits@), indices(rhs_bits@)),
            ),
            final(self).wf(),
            forall|a: spec_fn(int) -> bool| #[trigger]
                satisfies(a, final(self)@.clauses) ==> satisfies(a, old(self)@.clauses) && value(
                    a,
                    indices(lhs_bits@),
                ) < value(a, indices(rhs_bits@)),
            forall|a: spec_fn(int) -> bool| #[trigger]
                satisfies(a, old(self)@.clauses) && value(a, indices(lhs_bits@)) < value(
                    a,
                    indices(rhs_bits@),
                ) ==> exists|b: spec_fn(int) -> bool| #[trigger]
                    agree(a, b, old(self)@.variables) && satisfies(b, final(self)@.clauses),
    {
        proof {
            lemma_less_than(old(self)@, indices(lhs_bits@), indices(rhs_bits@));
        }
        let tie = self.less_than_equal_aux(lhs_bits, rhs_bits);
        // The two numbers differ.
        self.add_clause(tie.negated().clause());
        proof {
            reveal(less_than_clauses);
        }
        assert(self@.clauses =~= old(self)@.clauses + less_than_clauses(
            old(self)@.variables,
            indices(lhs_bits@),
            indices(rhs_bits@),
        ));
    }
}

/// A formula that owns a list of variables owns the list in reverse.
pub proof fn lemma_owns_reverse(f: Formula, vs: Seq<int>)
    requires
        f.owns_all(vs),
    ensures
        f.owns_all(vs.reverse()),
{
    assert forall|k: int| 0 <= k < vs.reverse().len() implies 1 <= #[trigger] vs.reverse()[k]
        <= f.variables by {
        assert(1 <= vs[vs.len() - 1 - k] <= f.variables);
    }
}

} // verus!
