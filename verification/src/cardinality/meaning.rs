//! What the clauses of the commander encoding mean: the assignments that
//! satisfy them are those that make exactly one of the choices true.

use crate::cardinality::{
    commanders, direct, exactly_once_clauses, exactly_once_variables, exclusions, first_cut, group,
    head_0, head_1, head_2, heads, lemma_tree_leaf, lemma_tree_unfold, second_cut, supports, tree,
};
use crate::cnf::Formula;
use crate::logic::{
    agree, assign, at_least_one, at_most_one, clause_holds, clause_within, exactly_one,
    lemma_agree_satisfies, lemma_clause_1, lemma_clause_2, lemma_clause_push, lemma_satisfies_1,
    lemma_satisfies_concat, lemma_within_concat, lemma_within_more, literal_holds, satisfies,
    variables_within, within,
};
use crate::tuples::{lemma_pairs_from_bounds, lemma_pairs_from_complete, ordered_pairs};
use vstd::prelude::*;

verus! {

/// Under `a` at most one of `vs` is true, and `commander` is true exactly
/// when one of them is.
pub open spec fn commands(a: spec_fn(int) -> bool, commander: int, vs: Seq<int>) -> bool {
    at_most_one(a, vs) && (a(commander) <==> at_least_one(a, vs))
}

/// The exclusion clauses of `vs` are satisfied exactly when at most one of
/// `vs` is true.
pub proof fn lemma_exclusions(a: spec_fn(int) -> bool, vs: Seq<int>, n: nat)
    requires
        variables_within(vs, n),
    ensures
        satisfies(a, exclusions(vs)) <==> at_most_one(a, vs),
{
    let e = exclusions(vs);
    let len = vs.len() as int;
    if satisfies(a, e) {
        assert forall|i: int, j: int| #![trigger vs[i], vs[j]] 0 <= i < j < len implies !(a(vs[i])
            && a(vs[j])) by {
            let k = lemma_pairs_from_complete(0, len, i, j);
            assert(e[k] == seq![-vs[i], -vs[j]]);
            assert(clause_holds(a, e[k]));
            lemma_clause_2(a, -vs[i], -vs[j]);
        }
    }
    if at_most_one(a, vs) {
        assert forall|k: int| 0 <= k < e.len() implies clause_holds(a, #[trigger] e[k]) by {
            lemma_pairs_from_bounds(0, len, k);
            let (i, j) = ordered_pairs(vs.len())[k];
            assert(e[k] == seq![-vs[i], -vs[j]]);
            lemma_clause_2(a, -vs[i], -vs[j]);
            assert(!(a(vs[i]) && a(vs[j])));
        }
    }
}

/// The clause of the variables `vs` is true exactly when one of them is.
pub proof fn lemma_disjunction(a: spec_fn(int) -> bool, vs: Seq<int>, n: nat)
    requires
        variables_within(vs, n),
    ensures
        clause_holds(a, vs) <==> at_least_one(a, vs),
{
    if clause_holds(a, vs) {
        let k = choose|k: int| 0 <= k < vs.len() && literal_holds(a, #[trigger] vs[k]);
        assert(a(vs[k]));
    }
    if at_least_one(a, vs) {
        let k = choose|k: int| 0 <= k < vs.len() && a(#[trigger] vs[k]);
        assert(literal_holds(a, vs[k]));
    }
}

/// The support clauses are satisfied exactly when `commander` is true if one
/// of `vs` is.
pub proof fn lemma_supports(a: spec_fn(int) -> bool, commander: int, vs: Seq<int>, n: nat)
    requires
        1 <= commander,
        variables_within(vs, n),
    ensures
        satisfies(a, supports(commander, vs)) <==> (at_least_one(a, vs) ==> a(commander)),
{
    let s = supports(commander, vs);
    if satisfies(a, s) && at_least_one(a, vs) {
        let k = choose|k: int| 0 <= k < vs.len() && a(#[trigger] vs[k]);
        assert(clause_holds(a, s[k]));
        lemma_clause_2(a, commander, -vs[k]);
    }
    if at_least_one(a, vs) ==> a(commander) {
        assert forall|k: int| 0 <= k < s.len() implies clause_holds(a, #[trigger] s[k]) by {
            lemma_clause_2(a, commander, -vs[k]);
            if a(vs[k]) {
                assert(at_least_one(a, vs));
            }
        }
    }
}

/// The clauses of a group are satisfied exactly when at most one of the
/// group is true and the commander is true exactly when one of them is.
pub proof fn lemma_group(a: spec_fn(int) -> bool, commander: int, vs: Seq<int>, n: nat)
    requires
        1 <= commander,
        variables_within(vs, n),
    ensures
        satisfies(a, group(commander, vs)) <==> commands(a, commander, vs),
{
    let implied = seq![vs.push(-commander)];
    lemma_satisfies_concat(a, exclusions(vs) + implied, supports(commander, vs));
    lemma_satisfies_concat(a, exclusions(vs), implied);
    lemma_exclusions(a, vs, n);
    lemma_supports(a, commander, vs, n);
    lemma_satisfies_1(a, vs.push(-commander));
    lemma_clause_push(a, vs, -commander);
    lemma_disjunction(a, vs, n);
}

/// If each of the three parts of `vs` is commanded by one of `hs`, and `hs`
/// by `commander`, then `vs` is commanded by `commander`.
pub proof fn lemma_join(
    a: spec_fn(int) -> bool,
    commander: int,
    vs: Seq<int>,
    d1: int,
    d2: int,
    hs: Seq<int>,
)
    requires
        0 <= d1 <= d2 <= vs.len(),
        hs.len() == 3,
        commands(a, hs[0], vs.subrange(0, d1)),
        commands(a, hs[1], vs.subrange(d1, d2)),
        commands(a, hs[2], vs.subrange(d2, vs.len() as int)),
        commands(a, commander, hs),
    ensures
        commands(a, commander, vs),
{
    let n = vs.len() as int;
    let part0 = vs.subrange(0, d1);
    let part1 = vs.subrange(d1, d2);
    let part2 = vs.subrange(d2, n);
    assert forall|i: int| 0 <= i < n && a(vs[i]) implies a(hs[part_of(i, d1, d2)]) by {
        if i < d1 {
            assert(part0[i] == vs[i]);
            assert(at_least_one(a, part0));
        } else if i < d2 {
            assert(part1[i - d1] == vs[i]);
            assert(at_least_one(a, part1));
        } else {
            assert(part2[i - d2] == vs[i]);
            assert(at_least_one(a, part2));
        }
    }
    assert forall|i: int, j: int| #![trigger vs[i], vs[j]] 0 <= i < j < n implies !(a(vs[i]) && a(
        vs[j],
    )) by {
        if a(vs[i]) && a(vs[j]) {
            let p = part_of(i, d1, d2);
            let q = part_of(j, d1, d2);
            assert(a(hs[p]) && a(hs[q]));
            if p < q {
                assert(!(a(hs[p]) && a(hs[q])));
            } else if p == 0 {
                assert(!(a(part0[i]) && a(part0[j])));
            } else if p == 1 {
                assert(!(a(part1[i - d1]) && a(part1[j - d1])));
            } else {
                assert(!(a(part2[i - d2]) && a(part2[j - d2])));
            }
        }
    }
    if at_least_one(a, vs) {
        let i = choose|i: int| 0 <= i < vs.len() && a(#[trigger] vs[i]);
        assert(a(hs[part_of(i, d1, d2)]));
        assert(at_least_one(a, hs));
    }
    if a(commander) {
        let p = choose|p: int| 0 <= p < hs.len() && a(#[trigger] hs[p]);
        if p == 0 {
            let i = choose|i: int| 0 <= i < part0.len() && a(#[trigger] part0[i]);
            assert(a(vs[i]));
        } else if p == 1 {
            let i = choose|i: int| 0 <= i < part1.len() && a(#[trigger] part1[i]);
            assert(a(vs[i + d1]));
        } else {
            let i = choose|i: int| 0 <= i < part2.len() && a(#[trigger] part2[i]);
            assert(a(vs[i + d2]));
        }
        assert(at_least_one(a, vs));
    }
}

/// Which of the three parts cut at `d1` and `d2` the position `i` lies in.
pub open spec fn part_of(i: int, d1: int, d2: int) -> int {
    if i < d1 {
        0
    } else if i < d2 {
        1
    } else {
        2
    }
}

/// Every assignment that satisfies the tree of `commander` over `vs` makes at
/// most one of `vs` true, and `commander` true exactly when one of them is.
pub proof fn lemma_tree_sound(a: spec_fn(int) -> bool, base: nat, commander: int, vs: Seq<int>)
    requires
        1 <= commander,
        variables_within(vs, base),
        satisfies(a, tree(base, commander, vs)),
    ensures
        commands(a, commander, vs),
    decreases vs.len(),
{
    let n = vs.len();
    if n <= 3 {
        lemma_tree_leaf(base, commander, vs);
        lemma_group(a, commander, vs, base);
    } else {
        lemma_tree_unfold(base, commander, vs);
        let d1 = first_cut(n) as int;
        let d2 = second_cut(n) as int;
        let (h0, h1, h2) = (head_0(base), head_1(base, n), head_2(base, n));
        let hs = heads(base, n);
        let part0 = vs.subrange(0, d1);
        let part1 = vs.subrange(d1, d2);
        let part2 = vs.subrange(d2, n as int);
        let t0 = tree(h0, h0 as int, part0);
        let t1 = tree(h1, h1 as int, part1);
        let t2 = tree(h2, h2 as int, part2);
        lemma_satisfies_concat(a, t0 + t1 + t2 + group(commander, hs), exclusions(hs));
        lemma_satisfies_concat(a, t0 + t1 + t2, group(commander, hs));
        lemma_satisfies_concat(a, t0 + t1, t2);
        lemma_satisfies_concat(a, t0, t1);
        lemma_parts_within(vs, base, d1, d2, h0);
        lemma_parts_within(vs, base, d1, d2, h1);
        lemma_parts_within(vs, base, d1, d2, h2);
        lemma_tree_sound(a, h0, h0 as int, part0);
        lemma_tree_sound(a, h1, h1 as int, part1);
        lemma_tree_sound(a, h2, h2 as int, part2);
        assert(variables_within(hs, h2));
        lemma_group(a, commander, hs, h2);
        lemma_join(a, commander, vs, d1, d2, hs);
    }
}

/// The three parts of a list of variables are within every bound that the
/// list is within.
pub proof fn lemma_parts_within(vs: Seq<int>, n: nat, d1: int, d2: int, m: nat)
    requires
        variables_within(vs, n),
        n <= m,
        0 <= d1 <= d2 <= vs.len(),
    ensures
        variables_within(vs.subrange(0, d1), m),
        variables_within(vs.subrange(d1, d2), m),
        variables_within(vs.subrange(d2, vs.len() as int), m),
{
    assert forall|k: int| 0 <= k < d1 implies 1 <= #[trigger] vs.subrange(0, d1)[k] <= m by {
        assert(1 <= vs[k] <= n);
    }
    assert forall|k: int| 0 <= k < d2 - d1 implies 1 <= #[trigger] vs.subrange(d1, d2)[k] <= m by {
        assert(1 <= vs[d1 + k] <= n);
    }
    assert forall|k: int| 0 <= k < vs.len() - d2 implies 1 <= #[trigger] vs.subrange(
        d2,
        vs.len() as int,
    )[k] <= m by {
        assert(1 <= vs[d2 + k] <= n);
    }
}

/// If at most one of `vs` is true, at most one of each part of `vs` is.
pub proof fn lemma_part_at_most_one(a: spec_fn(int) -> bool, vs: Seq<int>, i: int, j: int)
    requires
        0 <= i <= j <= vs.len(),
        at_most_one(a, vs),
    ensures
        at_most_one(a, vs.subrange(i, j)),
{
    let p = vs.subrange(i, j);
    assert forall|k: int, l: int| #![trigger p[k], p[l]] 0 <= k < l < p.len() implies !(a(p[k])
        && a(p[l])) by {
        assert(!(a(vs[i + k]) && a(vs[i + l])));
    }
}

/// Assignments that agree on the variables `1..=n` agree on how many of a
/// list of such variables are true.
pub proof fn lemma_agree_variables(
    a: spec_fn(int) -> bool,
    b: spec_fn(int) -> bool,
    n: nat,
    vs: Seq<int>,
)
    requires
        agree(a, b, n),
        variables_within(vs, n),
    ensures
        at_most_one(a, vs) == at_most_one(b, vs),
        at_least_one(a, vs) == at_least_one(b, vs),
{
    assert forall|k: int| 0 <= k < vs.len() implies a(#[trigger] vs[k]) == b(vs[k]) by {
        assert(1 <= vs[k] <= n);
    }
    if at_least_one(a, vs) {
        let k = choose|k: int| 0 <= k < vs.len() && a(#[trigger] vs[k]);
        assert(b(vs[k]));
    }
    if at_least_one(b, vs) {
        let k = choose|k: int| 0 <= k < vs.len() && b(#[trigger] vs[k]);
        assert(a(vs[k]));
    }
    if at_most_one(a, vs) {
        assert forall|i: int, j: int| #![trigger vs[i], vs[j]] 0 <= i < j < vs.len() implies !(b(
            vs[i],
        ) && b(vs[j])) by {
            assert(!(a(vs[i]) && a(vs[j])));
        }
    }
    if at_most_one(b, vs) {
        assert forall|i: int, j: int| #![trigger vs[i], vs[j]] 0 <= i < j < vs.len() implies !(a(
            vs[i],
        ) && a(vs[j])) by {
            assert(!(b(vs[i]) && b(vs[j])));
        }
    }
}

/// If `vs` is commanded by `commander` under `a`, and `b` gives `commander`
/// its value under `a` and each of `hs` the value that says whether its part
/// of `vs` holds a variable true under `a`, then `hs` is commanded by
/// `commander` under `b`.
pub proof fn lemma_split(
    a: spec_fn(int) -> bool,
    b: spec_fn(int) -> bool,
    commander: int,
    vs: Seq<int>,
    d1: int,
    d2: int,
    hs: Seq<int>,
)
    requires
        0 <= d1 <= d2 <= vs.len(),
        hs.len() == 3,
        commands(a, commander, vs),
        b(commander) == a(commander),
        b(hs[0]) == at_least_one(a, vs.subrange(0, d1)),
        b(hs[1]) == at_least_one(a, vs.subrange(d1, d2)),
        b(hs[2]) == at_least_one(a, vs.subrange(d2, vs.len() as int)),
    ensures
        commands(b, commander, hs),
{
    let n = vs.len() as int;
    let part0 = vs.subrange(0, d1);
    let part1 = vs.subrange(d1, d2);
    let part2 = vs.subrange(d2, n);
    // The position of a true variable in each part that has one.
    let w0 = choose|i: int| 0 <= i < part0.len() && a(#[trigger] part0[i]);
    let w1 = choose|i: int| 0 <= i < part1.len() && a(#[trigger] part1[i]);
    let w2 = choose|i: int| 0 <= i < part2.len() && a(#[trigger] part2[i]);
    assert(b(hs[0]) ==> a(vs[w0]) && 0 <= w0 < d1) by {
        if b(hs[0]) {
            assert(part0[w0] == vs[w0]);
        }
    }
    assert(b(hs[1]) ==> a(vs[d1 + w1]) && d1 <= d1 + w1 < d2) by {
        if b(hs[1]) {
            assert(part1[w1] == vs[d1 + w1]);
        }
    }
    assert(b(hs[2]) ==> a(vs[d2 + w2]) && d2 <= d2 + w2 < n) by {
        if b(hs[2]) {
            assert(part2[w2] == vs[d2 + w2]);
        }
    }
    assert forall|p: int, q: int| #![trigger hs[p], hs[q]] 0 <= p < q < 3 implies !(b(hs[p]) && b(
        hs[q],
    )) by {
        if b(hs[p]) && b(hs[q]) {
            let i = if p == 0 {
                w0
            } else {
                d1 + w1
            };
            let j = if q == 1 {
                d1 + w1
            } else {
                d2 + w2
            };
            assert(!(a(vs[i]) && a(vs[j])));
        }
    }
    if at_least_one(b, hs) {
        let p = choose|p: int| 0 <= p < hs.len() && b(#[trigger] hs[p]);
        let i = if p == 0 {
            w0
        } else if p == 1 {
            d1 + w1
        } else {
            d2 + w2
        };
        assert(a(vs[i]));
        assert(at_least_one(a, vs));
    }
    if a(commander) {
        let i = choose|i: int| 0 <= i < vs.len() && a(#[trigger] vs[i]);
        if i < d1 {
            assert(a(part0[i]));
            assert(b(hs[0]));
        } else if i < d2 {
            assert(a(part1[i - d1]));
            assert(b(hs[1]));
        } else {
            assert(a(part2[i - d2]));
            assert(b(hs[2]));
        }
        assert(at_least_one(b, hs));
    }
}

/// The clauses of a group speak of the commander and the group only.
pub proof fn lemma_group_within(commander: int, vs: Seq<int>, n: nat)
    requires
        1 <= commander <= n,
        variables_within(vs, n),
    ensures
        within(exclusions(vs), n),
        within(seq![vs], n),
        within(group(commander, vs), n),
{
    let e = exclusions(vs);
    assert forall|k: int| 0 <= k < e.len() implies clause_within(#[trigger] e[k], n) by {
        lemma_pairs_from_bounds(0, vs.len() as int, k);
        let (i, j) = ordered_pairs(vs.len())[k];
        assert(e[k] == seq![-vs[i], -vs[j]]);
        assert(1 <= vs[i] <= n && 1 <= vs[j] <= n);
    }
    let s = supports(commander, vs);
    assert forall|k: int| 0 <= k < s.len() implies clause_within(#[trigger] s[k], n) by {
        assert(1 <= vs[k] <= n);
    }
    let c = vs.push(-commander);
    assert forall|k: int| 0 <= k < c.len() implies 1 <= #[trigger] c[k] <= n || 1 <= -c[k]
        <= n by {
        if k < vs.len() {
            assert(1 <= vs[k] <= n);
        }
    }
    assert(within(seq![c], n));
    assert(within(seq![vs], n));
    lemma_within_concat(e, seq![c], n);
    lemma_within_concat(e + seq![c], s, n);
}

/// The tree of `commander` over `vs` speaks of `commander`, of `vs` and of
/// its own commanders only.
pub proof fn lemma_tree_within(base: nat, commander: int, vs: Seq<int>)
    requires
        1 <= commander <= base,
        variables_within(vs, base),
    ensures
        within(tree(base, commander, vs), base + commanders(vs.len())),
    decreases vs.len(),
{
    let n = vs.len();
    if n <= 3 {
        lemma_tree_leaf(base, commander, vs);
        lemma_group_within(commander, vs, base);
    } else {
        lemma_tree_unfold(base, commander, vs);
        let d1 = first_cut(n) as int;
        let d2 = second_cut(n) as int;
        let (h0, h1, h2) = (head_0(base), head_1(base, n), head_2(base, n));
        let hs = heads(base, n);
        let part0 = vs.subrange(0, d1);
        let part1 = vs.subrange(d1, d2);
        let part2 = vs.subrange(d2, n as int);
        let t0 = tree(h0, h0 as int, part0);
        let t1 = tree(h1, h1 as int, part1);
        let t2 = tree(h2, h2 as int, part2);
        let top = base + commanders(n);
        lemma_parts_within(vs, base, d1, d2, h0);
        lemma_parts_within(vs, base, d1, d2, h1);
        lemma_parts_within(vs, base, d1, d2, h2);
        lemma_tree_within(h0, h0 as int, part0);
        lemma_tree_within(h1, h1 as int, part1);
        lemma_tree_within(h2, h2 as int, part2);
        lemma_within_more(t0, h0 + commanders(part0.len()), top);
        lemma_within_more(t1, h1 + commanders(part1.len()), top);
        lemma_within_more(t2, h2 + commanders(part2.len()), top);
        assert(variables_within(hs, top));
        lemma_group_within(commander, hs, top);
        lemma_within_concat(t0, t1, top);
        lemma_within_concat(t0 + t1, t2, top);
        lemma_within_concat(t0 + t1 + t2, group(commander, hs), top);
        lemma_within_concat(t0 + t1 + t2 + group(commander, hs), exclusions(hs), top);
    }
}

/// Every assignment under which `vs` is commanded by `commander` can be
/// given values for the commanders of the tree so that it satisfies the
/// tree. The result differs from `a` on no variable of the first `base`.
pub proof fn lemma_tree_complete(
    a: spec_fn(int) -> bool,
    base: nat,
    commander: int,
    vs: Seq<int>,
) -> (b: spec_fn(int) -> bool)
    requires
        1 <= commander <= base,
        variables_within(vs, base),
        commands(a, commander, vs),
    ensures
        agree(a, b, base),
        satisfies(b, tree(base, commander, vs)),
    decreases vs.len(),
{
    let n = vs.len();
    if n <= 3 {
        lemma_tree_leaf(base, commander, vs);
        lemma_group(a, commander, vs, base);
        a
    } else {
        lemma_tree_unfold(base, commander, vs);
        let d1 = first_cut(n) as int;
        let d2 = second_cut(n) as int;
        let (h0, h1, h2) = (head_0(base), head_1(base, n), head_2(base, n));
        let hs = heads(base, n);
        let part0 = vs.subrange(0, d1);
        let part1 = vs.subrange(d1, d2);
        let part2 = vs.subrange(d2, n as int);
        let t0 = tree(h0, h0 as int, part0);
        let t1 = tree(h1, h1 as int, part1);
        let t2 = tree(h2, h2 as int, part2);
        lemma_parts_within(vs, base, d1, d2, base);
        lemma_parts_within(vs, base, d1, d2, h0);
        lemma_parts_within(vs, base, d1, d2, h1);
        lemma_parts_within(vs, base, d1, d2, h2);
        lemma_part_at_most_one(a, vs, 0, d1);
        lemma_part_at_most_one(a, vs, d1, d2);
        lemma_part_at_most_one(a, vs, d2, n as int);

        let a0 = assign(a, h0 as int, at_least_one(a, part0));
        assert(agree(a, a0, base));
        lemma_agree_variables(a, a0, base, part0);
        let b0 = lemma_tree_complete(a0, h0, h0 as int, part0);
        lemma_tree_within(h0, h0 as int, part0);

        let a1 = assign(b0, h1 as int, at_least_one(a, part1));
        assert(agree(a, a1, base)) by {
            assert forall|v: int| 1 <= v <= base implies #[trigger] a(v) == a1(v) by {
                assert(a0(v) == b0(v));
            }
        }
        lemma_agree_variables(a, a1, base, part1);
        let b1 = lemma_tree_complete(a1, h1, h1 as int, part1);
        lemma_tree_within(h1, h1 as int, part1);

        let a2 = assign(b1, h2 as int, at_least_one(a, part2));
        assert(agree(a, a2, base)) by {
            assert forall|v: int| 1 <= v <= base implies #[trigger] a(v) == a2(v) by {
                assert(a1(v) == b1(v));
            }
        }
        lemma_agree_variables(a, a2, base, part2);
        let b2 = lemma_tree_complete(a2, h2, h2 as int, part2);

        assert(agree(a, b2, base)) by {
            assert forall|v: int| 1 <= v <= base implies #[trigger] a(v) == b2(v) by {
                assert(a2(v) == b2(v));
            }
        }
        assert(agree(b0, b2, (h1 - 1) as nat)) by {
            assert forall|v: int| 1 <= v <= h1 - 1 implies #[trigger] b0(v) == b2(v) by {
                assert(a1(v) == b1(v));
                assert(a2(v) == b2(v));
            }
        }
        lemma_agree_satisfies(b0, b2, (h1 - 1) as nat, t0);
        assert(agree(b1, b2, (h2 - 1) as nat)) by {
            assert forall|v: int| 1 <= v <= h2 - 1 implies #[trigger] b1(v) == b2(v) by {
                assert(a2(v) == b2(v));
            }
        }
        lemma_agree_satisfies(b1, b2, (h2 - 1) as nat, t1);

        assert(b2(h0 as int) == at_least_one(a, part0)) by {
            assert(a0(h0 as int) == b0(h0 as int));
            assert(a1(h0 as int) == b1(h0 as int));
            assert(a2(h0 as int) == b2(h0 as int));
        }
        assert(b2(h1 as int) == at_least_one(a, part1)) by {
            assert(a1(h1 as int) == b1(h1 as int));
            assert(a2(h1 as int) == b2(h1 as int));
        }
        assert(b2(h2 as int) == at_least_one(a, part2)) by {
            assert(a2(h2 as int) == b2(h2 as int));
        }
        assert(b2(commander) == a(commander));
        lemma_split(a, b2, commander, vs, d1, d2, hs);
        assert(variables_within(hs, h2));
        lemma_group(b2, commander, hs, h2);
        lemma_exclusions(b2, hs, h2);
        lemma_satisfies_concat(b2, t0, t1);
        lemma_satisfies_concat(b2, t0 + t1, t2);
        lemma_satisfies_concat(b2, t0 + t1 + t2, group(commander, hs));
        lemma_satisfies_concat(b2, t0 + t1 + t2 + group(commander, hs), exclusions(hs));
        b2
    }
}

/// The clauses of `exactly_once` speak of the choices and of its own new
/// variables only.
pub proof fn lemma_exactly_once_within(base: nat, vs: Seq<int>)
    requires
        variables_within(vs, base),
    ensures
        within(exactly_once_clauses(base, vs), base + exactly_once_variables(vs.len())),
{
    reveal(exactly_once_clauses);
    let top = base + 1;
    let all = base + exactly_once_variables(vs.len());
    let head = if vs.len() < 6 {
        direct(vs)
    } else {
        Seq::empty()
    };
    lemma_parts_within(vs, base, 0, 0, top);
    assert(vs.subrange(0, vs.len() as int) =~= vs);
    lemma_tree_within(top, top as int, vs);
    lemma_parts_within(vs, base, 0, 0, all);
    lemma_group_within(top as int, vs, all);
    lemma_within_concat(seq![vs], exclusions(vs), all);
    assert(within(seq![seq![top as int]], all));
    lemma_within_concat(head, seq![seq![top as int]], all);
    lemma_within_concat(head + seq![seq![top as int]], tree(top, top as int, vs), all);
}

/// Every assignment that satisfies the clauses of `exactly_once` makes
/// exactly one of the choices true.
pub proof fn lemma_exactly_once_sound(a: spec_fn(int) -> bool, base: nat, vs: Seq<int>)
    requires
        variables_within(vs, base),
        satisfies(a, exactly_once_clauses(base, vs)),
    ensures
        exactly_one(a, vs),
{
    reveal(exactly_once_clauses);
    let top = base + 1;
    let head = if vs.len() < 6 {
        direct(vs)
    } else {
        Seq::empty()
    };
    lemma_satisfies_concat(a, head + seq![seq![top as int]], tree(top, top as int, vs));
    lemma_satisfies_concat(a, head, seq![seq![top as int]]);
    lemma_satisfies_1(a, seq![top as int]);
    lemma_clause_1(a, top as int);
    lemma_parts_within(vs, base, 0, 0, top);
    assert(vs.subrange(0, vs.len() as int) =~= vs);
    lemma_tree_sound(a, top, top as int, vs);
}

/// Every assignment that makes exactly one of the choices true can be given
/// values for the new variables of `exactly_once` so that it satisfies its
/// clauses. The result differs from `a` on no variable of the first `base`.
pub proof fn lemma_exactly_once_complete(a: spec_fn(int) -> bool, base: nat, vs: Seq<int>) -> (b:
    spec_fn(int) -> bool)
    requires
        variables_within(vs, base),
        exactly_one(a, vs),
    ensures
        agree(a, b, base),
        satisfies(b, exactly_once_clauses(base, vs)),
{
    reveal(exactly_once_clauses);
    let top = base + 1;
    let head = if vs.len() < 6 {
        direct(vs)
    } else {
        Seq::empty()
    };
    let a1 = assign(a, top as int, true);
    assert(agree(a, a1, base));
    lemma_agree_variables(a, a1, base, vs);
    lemma_parts_within(vs, base, 0, 0, top);
    assert(vs.subrange(0, vs.len() as int) =~= vs);
    let b = lemma_tree_complete(a1, top, top as int, vs);
    assert(agree(a, b, base)) by {
        assert forall|v: int| 1 <= v <= base implies #[trigger] a(v) == b(v) by {
            assert(a1(v) == b(v));
        }
    }
    assert(b(top as int)) by {
        assert(a1(top as int) == b(top as int));
    }
    lemma_clause_1(b, top as int);
    lemma_satisfies_1(b, seq![top as int]);
    lemma_agree_variables(a, b, base, vs);
    if vs.len() < 6 {
        lemma_disjunction(b, vs, base);
        lemma_satisfies_1(b, vs);
        lemma_exclusions(b, vs, base);
        lemma_satisfies_concat(b, seq![vs], exclusions(vs));
    }
    lemma_satisfies_concat(b, head, seq![seq![top as int]]);
    lemma_satisfies_concat(b, head + seq![seq![top as int]], tree(top, top as int, vs));
    b
}

/// What the clauses of `exactly_once` mean when added to a formula: the
/// assignments that satisfy the longer formula are those that satisfy the
/// shorter one and make exactly one of the choices true, each with values
/// for the new variables.
pub proof fn lemma_exactly_once(f: Formula, vs: Seq<int>)
    requires
        f.wf(),
        f.owns_all(vs),
    ensures
        forall|a: spec_fn(int) -> bool| #[trigger]
            satisfies(a, f.clauses + exactly_once_clauses(f.variables, vs)) ==> satisfies(
                a,
                f.clauses,
            ) && exactly_one(a, vs),
        forall|a: spec_fn(int) -> bool|
            satisfies(a, f.clauses) && #[trigger] exactly_one(a, vs) ==> exists|
                b: spec_fn(int) -> bool,
            | #[trigger]
                agree(a, b, f.variables) && satisfies(
                    b,
                    f.clauses + exactly_once_clauses(f.variables, vs),
                ),
{
    let added = exactly_once_clauses(f.variables, vs);
    assert forall|a: spec_fn(int) -> bool| #[trigger]
        satisfies(a, f.clauses + added) implies satisfies(a, f.clauses) && exactly_one(a, vs) by {
        lemma_satisfies_concat(a, f.clauses, added);
        lemma_exactly_once_sound(a, f.variables, vs);
    }
    assert forall|a: spec_fn(int) -> bool|
        satisfies(a, f.clauses) && #[trigger] exactly_one(a, vs) implies exists|
        b: spec_fn(int) -> bool,
    | #[trigger] agree(a, b, f.variables) && satisfies(b, f.clauses + added) by {
        let b = lemma_exactly_once_complete(a, f.variables, vs);
        f.lemma_wf_within();
        lemma_agree_satisfies(a, b, f.variables, f.clauses);
        lemma_satisfies_concat(b, f.clauses, added);
        assert(agree(a, b, f.variables) && satisfies(b, f.clauses + added));
    }
}

} // verus!
