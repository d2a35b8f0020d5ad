//! The constraint that exactly one of a list of variables is true, encoded
//! with a tree of commander variables.

use crate::cardinality::meaning::lemma_exactly_once;
use crate::cnf::{indices, Clause, Variable, CNF};
use crate::logic::{agree, exactly_one, lemma_append_assoc, satisfies};
use crate::tuples::{
    index_pairs, lemma_ordered_pairs_bounds, lemma_pairs_from_len, ordered_pairs, pair_count,
    positions,
};
use vstd::prelude::*;

pub mod meaning;

verus! {

/// One clause for each pair of positions of `vs`, in lexicographic order of
/// the positions: the two variables are not both true.
pub open spec fn exclusions(vs: Seq<int>) -> Seq<Seq<int>> {
    ordered_pairs(vs.len()).map_values(|p: (int, int)| seq![-vs[p.0], -vs[p.1]])
}

/// One clause for each element of `vs`: if it is true, so is `commander`.
pub open spec fn supports(commander: int, vs: Seq<int>) -> Seq<Seq<int>> {
    Seq::new(vs.len(), |k: int| seq![commander, -vs[k]])
}

/// The clauses that tie `commander` to the group `vs`: no two of the group
/// are true; if the commander is true, one of the group is; and if one of
/// the group is true, so is the commander.
pub open spec fn group(commander: int, vs: Seq<int>) -> Seq<Seq<int>> {
    exclusions(vs) + seq![vs.push(-commander)] + supports(commander, vs)
}

/// Where the first of the three parts of a list of `n` elements ends.
pub open spec fn first_cut(n: nat) -> nat {
    n / 3
}

/// Where the second of the three parts of a list of `n` elements ends.
pub open spec fn second_cut(n: nat) -> nat {
    2 * n / 3
}

/// The number of commanders below the one of a list of `n` elements.
#[verifier::opaque]
pub open spec fn commanders(n: nat) -> nat
    decreases n,
{
    if n <= 3 {
        0
    } else {
        3 + commanders(first_cut(n)) + commanders((second_cut(n) - first_cut(n)) as nat)
            + commanders((n - second_cut(n)) as nat)
    }
}

/// The first of the three commanders below the one of a tree over `base`.
pub open spec fn head_0(base: nat) -> nat {
    base + 1
}

/// The second of them, for a list of `n` elements.
pub open spec fn head_1(base: nat, n: nat) -> nat {
    head_0(base) + commanders(first_cut(n)) + 1
}

/// The third of them, for a list of `n` elements.
pub open spec fn head_2(base: nat, n: nat) -> nat {
    head_1(base, n) + commanders((second_cut(n) - first_cut(n)) as nat) + 1
}

/// The three commanders below the one of a tree over `base`, for a list of
/// `n` elements.
pub open spec fn heads(base: nat, n: nat) -> Seq<int> {
    seq![head_0(base) as int, head_1(base, n) as int, head_2(base, n) as int]
}

/// The clauses under which at most one of `vs` is true, and `commander` is
/// true exactly when one of them is. Up to three elements form one group. A
/// longer list is cut into three parts in its order, each with a commander
/// of its own, and the three commanders form the group of `commander`. The
/// new commanders are the variables after the first `base`: each of the
/// three is followed by the commanders of its own tree.
#[verifier::opaque]
pub open spec fn tree(base: nat, commander: int, vs: Seq<int>) -> Seq<Seq<int>>
    decreases vs.len(),
{
    let n = vs.len();
    if n <= 3 {
        group(commander, vs)
    } else {
        tree(head_0(base), head_0(base) as int, vs.subrange(0, first_cut(n) as int)) + tree(
            head_1(base, n),
            head_1(base, n) as int,
            vs.subrange(first_cut(n) as int, second_cut(n) as int),
        ) + tree(
            head_2(base, n),
            head_2(base, n) as int,
            vs.subrange(second_cut(n) as int, n as int),
        ) + group(commander, heads(base, n)) + exclusions(heads(base, n))
    }
}

/// The clauses that say outright that exactly one of `vs` is true: one of
/// them is, and no two are.
pub open spec fn direct(vs: Seq<int>) -> Seq<Seq<int>> {
    seq![vs] + exclusions(vs)
}

/// How many variables `exactly_once` issues for a list of `n` choices.
pub open spec fn exactly_once_variables(n: nat) -> nat {
    1 + commanders(n)
}

/// The clauses that `exactly_once` adds for the choices `vs` to a formula of
/// `base` variables: for fewer than six choices the direct clauses; then a
/// new commander, asserted, and its tree.
#[verifier::opaque]
pub open spec fn exactly_once_clauses(base: nat, vs: Seq<int>) -> Seq<Seq<int>> {
    (if vs.len() < 6 {
        direct(vs)
    } else {
        Seq::empty()
    }) + seq![seq![base + 1 as int]] + tree(base + 1, base + 1 as int, vs)
}

/// What `commanders` and `tree` are for a list of more than three elements.
pub proof fn lemma_tree_unfold(base: nat, commander: int, vs: Seq<int>)
    requires
        vs.len() > 3,
    ensures
        commanders(vs.len()) == 3 + commanders(first_cut(vs.len())) + commanders(
            (second_cut(vs.len()) - first_cut(vs.len())) as nat,
        ) + commanders((vs.len() - second_cut(vs.len())) as nat),
        0 < first_cut(vs.len()) < second_cut(vs.len()) < vs.len(),
        tree(base, commander, vs) == tree(
            head_0(base),
            head_0(base) as int,
            vs.subrange(0, first_cut(vs.len()) as int),
        ) + tree(
            head_1(base, vs.len()),
            head_1(base, vs.len()) as int,
            vs.subrange(first_cut(vs.len()) as int, second_cut(vs.len()) as int),
        ) + tree(
            head_2(base, vs.len()),
            head_2(base, vs.len()) as int,
            vs.subrange(second_cut(vs.len()) as int, vs.len() as int),
        ) + group(commander, heads(base, vs.len())) + exclusions(heads(base, vs.len())),
{
    reveal(commanders);
    reveal(tree);
}

/// What `commanders` and `tree` are for a list of at most three elements.
pub proof fn lemma_tree_leaf(base: nat, commander: int, vs: Seq<int>)
    requires
        vs.len() <= 3,
    ensures
        commanders(vs.len()) == 0,
        tree(base, commander, vs) == group(commander, vs),
{
    reveal(commanders);
    reveal(tree);
}

impl CNF {
    /// Adds the clauses by which no two of `choices` are true.
    fn exclude_pairs(&mut self, choices: &[Variable])
        requires
            old(self).wf(),
            old(self)@.owns_all(indices(choices@)),
            choices@.len() < 6,
        ensures
            final(self)@ == old(self)@.with_clauses(exclusions(indices(choices@))),
            final(self).wf(),
    {
        let ghost vs = indices(choices@);
        proof {
            lemma_pairs_from_len(0, choices@.len() as int);
            lemma_ordered_pairs_bounds(choices@.len());
            assert(pair_count(choices@.len()) <= 10) by (nonlinear_arith)
                requires
                    choices@.len() < 6,
                    pair_count(choices@.len()) == choices@.len() * (choices@.len() - 1) / 2,
            ;
        }
        let pairs = index_pairs(choices.len());
        for k in 0..pairs.len()
            invariant
                self.wf(),
                self@.owns_all(vs),
                vs == indices(choices@),
                positions(pairs@) == ordered_pairs(choices@.len()),
                forall|k: int|
                    0 <= k < ordered_pairs(choices@.len()).len() ==> 0 <= (
                    #[trigger] ordered_pairs(choices@.len())[k]).0 < ordered_pairs(
                        choices@.len(),
                    )[k].1 < choices@.len(),
                self@ == old(self)@.with_clauses(exclusions(vs).take(k as int)),
        {
            let (i, j) = pairs[k];
            assert(positions(pairs@)[k as int] == (i as int, j as int));
            assert(self@.owns(vs[i as int]) && self@.owns(vs[j as int]));
            let ghost before = self@;
            self.add_clause(choices[i].negated().or_not(choices[j]));
            assert(self@.clauses =~= old(self)@.clauses + exclusions(vs).take(k + 1));
        }
        assert(exclusions(vs).take(pairs.len() as int) =~= exclusions(vs));
    }

    /// Adds the clauses that tie `commander` to a group of at most three
    /// `choices`.
    fn add_group(&mut self, commander: Variable, choices: &[Variable])
        requires
            old(self).wf(),
            old(self)@.owns(commander@),
            old(self)@.owns_all(indices(choices@)),
            choices@.len() <= 3,
        ensures
            final(self)@ == old(self)@.with_clauses(group(commander@, indices(choices@))),
            final(self).wf(),
    {
        let ghost vs = indices(choices@);
        // No two of the group are true.
        self.exclude_pairs(choices);
        // If the commander is true, one of the group is.
        self.add_clause(Clause::of_variables(choices).with_negated(commander));
        let ghost head = exclusions(vs) + seq![vs.push(-commander@)];
        assert(self@.clauses =~= old(self)@.clauses + head);
        // If one of the group is true, so is the commander.
        for k in 0..choices.len()
            invariant
                self.wf(),
                self@.owns(commander@),
                self@.owns_all(vs),
                vs == indices(choices@),
                self@ == old(self)@.with_clauses(head + supports(commander@, vs).take(k as int)),
        {
            assert(self@.owns(vs[k as int]));
            self.add_clause(commander.or_not(choices[k]));
            assert(self@.clauses =~= old(self)@.clauses + (head + supports(commander@, vs).take(
                k + 1,
            )));
        }
        assert(supports(commander@, vs).take(choices.len() as int) =~= supports(commander@, vs));
    }

    /// Adds the tree of `commander` over `choices`.
    fn exactly_once_aux(&mut self, commander: Variable, choices: &[Variable])
        requires
            old(self).wf(),
            old(self)@.owns(commander@),
            old(self)@.owns_all(indices(choices@)),
            old(self)@.variables + commanders(choices@.len()) <= isize::MAX,
        ensures
            final(self)@ == old(self)@.with_variables(commanders(choices@.len())).with_clauses(
                tree(old(self)@.variables, commander@, indices(choices@)),
            ),
            final(self).wf(),
        decreases choices@.len(),
    {
        let n = choices.len();
        let ghost vs = indices(choices@);
        let ghost base = self@.variables;
        if n <= 3 {
            proof {
                lemma_tree_leaf(base, commander@, vs);
            }
            self.add_group(commander, choices);
            return ;
        }
        let d1 = n / 3;
        let d2 = 2 * (n / 3) + 2 * (n % 3) / 3;
        assert(d1 == first_cut(n as nat) && d2 == second_cut(n as nat));
        proof {
            lemma_tree_unfold(base, commander@, vs);
            assert(indices(choices@.subrange(0, d1 as int)) =~= vs.subrange(0, d1 as int));
            assert(indices(choices@.subrange(d1 as int, d2 as int)) =~= vs.subrange(
                d1 as int,
                d2 as int,
            ));
            assert(indices(choices@.subrange(d2 as int, n as int)) =~= vs.subrange(
                d2 as int,
                n as int,
            ));
        }

        let ghost part_0 = vs.subrange(0, d1 as int);
        let ghost part_1 = vs.subrange(d1 as int, d2 as int);
        let ghost part_2 = vs.subrange(d2 as int, n as int);
        let ghost start = self@.clauses;

        let commander_0 = self.new_variable();
        proof {
            old(self)@.lemma_owns_all_more(self@, vs);
            self@.lemma_owns_all_subrange(vs, 0, d1 as int);
        }
        self.exactly_once_aux(commander_0, &choices[0..d1]);
        let ghost clauses_0 = tree(commander_0@ as nat, commander_0@, part_0);
        assert(self@.clauses == start + clauses_0);

        let commander_1 = self.new_variable();
        proof {
            old(self)@.lemma_owns_all_more(self@, vs);
            self@.lemma_owns_all_subrange(vs, d1 as int, d2 as int);
        }
        self.exactly_once_aux(commander_1, &choices[d1..d2]);
        let ghost clauses_1 = tree(commander_1@ as nat, commander_1@, part_1);
        proof {
            lemma_append_assoc(start, clauses_0, clauses_1);
        }
        assert(self@.clauses == start + (clauses_0 + clauses_1));

        let commander_2 = self.new_variable();
        proof {
            old(self)@.lemma_owns_all_more(self@, vs);
            self@.lemma_owns_all_subrange(vs, d2 as int, n as int);
        }
        self.exactly_once_aux(commander_2, &choices[d2..n]);
        let ghost clauses_2 = tree(commander_2@ as nat, commander_2@, part_2);
        proof {
            lemma_append_assoc(start, clauses_0 + clauses_1, clauses_2);
        }
        assert(self@.clauses == start + (clauses_0 + clauses_1 + clauses_2));

        let three = [commander_0, commander_1, commander_2];
        let ghost hs = heads(base, n as nat);
        assert(indices(three@) =~= hs);
        assert(self@.owns_all(hs));
        // The three commanders form the group of `commander`.
        self.add_group(commander, &three);
        proof {
            lemma_append_assoc(start, clauses_0 + clauses_1 + clauses_2, group(commander@, hs));
        }
        // No two of the three parts hold a true choice.
        self.exclude_pairs(&three);
        proof {
            lemma_append_assoc(
                start,
                clauses_0 + clauses_1 + clauses_2 + group(commander@, hs),
                exclusions(hs),
            );
        }
    }

    /// Constrains the formula so that exactly one of `choices` is true.
    ///
    /// The variables of the formula must stay within what this machine can
    /// number. What the added clauses mean does not depend on that limit:
    /// [`meaning::lemma_exactly_once_sound`] and
    /// [`meaning::lemma_exactly_once_complete`] show it of the clauses
    /// themselves, for every list of choices.
    pub fn exactly_once(&mut self, choices: &[Variable])
        requires
            old(self).wf(),
            old(self)@.owns_all(indices(choices@)),
            old(self)@.variables + exactly_once_variables(choices@.len()) <= isize::MAX,
        ensures
            final(self)@ == old(self)@.with_variables(
                exactly_once_variables(choices@.len()),
            ).with_clauses(exactly_once_clauses(old(self)@.variables, indices(choices@))),
            final(self).wf(),
            forall|a: spec_fn(int) -> bool| #[trigger]
                satisfies(a, final(self)@.clauses) ==> satisfies(a, old(self)@.clauses)
                    && exactly_one(a, indices(choices@)),
            forall|a: spec_fn(int) -> bool|
                satisfies(a, old(self)@.clauses) && #[trigger] exactly_one(a, indices(choices@))
                    ==> exists|b: spec_fn(int) -> bool| #[trigger]
                    agree(a, b, old(self)@.variables) && satisfies(b, final(self)@.clauses),
    {
        let ghost vs = indices(choices@);
        proof {
            reveal(exactly_once_clauses);
            lemma_exactly_once(old(self)@, vs);
        }
        if choices.len() < 6 {
            self.add_clause(Clause::of_variables(choices));
            self.exclude_pairs(choices);
            assert(self@.clauses =~= old(self)@.clauses + direct(vs));
        }
        let commander = self.new_variable();
        self.add_clause(commander.clause());
        self.exactly_once_aux(commander, choices);
        assert(self@.clauses =~= old(self)@.clauses + exactly_once_clauses(
            old(self)@.variables,
            vs,
        ));
    }
}

} // verus!
