//! Truth assignments and what it means for one to satisfy a set of clauses.

use vstd::prelude::*;

verus! {

/// The literal `l` is true under `a`: a positive literal asserts its variable,
/// a negative one denies it.
pub open spec fn literal_holds(a: spec_fn(int) -> bool, l: int) -> bool {
    if l > 0 {
        a(l)
    } else {
        !a(-l)
    }
}

/// The clause `c`, read as the disjunction of its literals, is true under `a`.
pub open spec fn clause_holds(a: spec_fn(int) -> bool, c: Seq<int>) -> bool {
    exists|k: int| 0 <= k < c.len() && literal_holds(a, #[trigger] c[k])
}

/// Every clause of `cs` is true under `a`.
pub open spec fn satisfies(a: spec_fn(int) -> bool, cs: Seq<Seq<int>>) -> bool {
    forall|k: int| 0 <= k < cs.len() ==> clause_holds(a, #[trigger] cs[k])
}

/// The assignments `a` and `b` give the same value to the variables `1..=n`.
pub open spec fn agree(a: spec_fn(int) -> bool, b: spec_fn(int) -> bool, n: nat) -> bool {
    forall|v: int| 1 <= v <= n ==> #[trigger] a(v) == b(v)
}

/// Every literal of `c` is one of the variables `1..=n` or the negation of
/// one.
pub open spec fn clause_within(c: Seq<int>, n: nat) -> bool {
    forall|k: int| 0 <= k < c.len() ==> 1 <= #[trigger] c[k] <= n || 1 <= -c[k] <= n
}

/// Every clause of `cs` speaks of the variables `1..=n` only.
pub open spec fn within(cs: Seq<Seq<int>>, n: nat) -> bool {
    forall|k: int| 0 <= k < cs.len() ==> clause_within(#[trigger] cs[k], n)
}

/// Every element of `vs` is one of the variables `1..=n`.
pub open spec fn variables_within(vs: Seq<int>, n: nat) -> bool {
    forall|k: int| 0 <= k < vs.len() ==> 1 <= #[trigger] vs[k] <= n
}

/// No two positions of `vs` hold a variable that is true under `a`.
pub open spec fn at_most_one(a: spec_fn(int) -> bool, vs: Seq<int>) -> bool {
    forall|i: int, j: int|
        #![trigger vs[i], vs[j]]
        0 <= i < j < vs.len() ==> !(a(vs[i]) && a(vs[j]))
}

/// Some position of `vs` holds a variable that is true under `a`.
pub open spec fn at_least_one(a: spec_fn(int) -> bool, vs: Seq<int>) -> bool {
    exists|i: int| 0 <= i < vs.len() && a(#[trigger] vs[i])
}

/// Exactly one position of `vs` holds a variable that is true under `a`.
pub open spec fn exactly_one(a: spec_fn(int) -> bool, vs: Seq<int>) -> bool {
    at_least_one(a, vs) && at_most_one(a, vs)
}

/// The assignment that gives `v` the value `value` and is `a` elsewhere.
pub open spec fn assign(a: spec_fn(int) -> bool, v: int, value: bool) -> spec_fn(int) -> bool {
    |w: int| if w == v { value } else { a(w) }
}

/// Agreement on the first variables is agreement on fewer of them, and
/// passes on from one assignment to the next.
pub proof fn lemma_agree_chain(
    a: spec_fn(int) -> bool,
    b: spec_fn(int) -> bool,
    c: spec_fn(int) -> bool,
    n: nat,
    m: nat,
)
    requires
        agree(a, b, n),
        agree(b, c, m),
        n <= m,
    ensures
        agree(a, c, n),
{
    assert forall|v: int| 1 <= v <= n implies #[trigger] a(v) == c(v) by {
        assert(a(v) == b(v));
        assert(b(v) == c(v));
    }
}

/// A clause of one literal is true exactly when the literal is.
pub proof fn lemma_clause_1(a: spec_fn(int) -> bool, x: int)
    ensures
        clause_holds(a, seq![x]) <==> literal_holds(a, x),
{
    let c = seq![x];
    if literal_holds(a, x) {
        assert(literal_holds(a, c[0]));
    }
}

/// A clause of two literals is true exactly when one of the two is.
pub proof fn lemma_clause_2(a: spec_fn(int) -> bool, x: int, y: int)
    ensures
        clause_holds(a, seq![x, y]) <==> literal_holds(a, x) || literal_holds(a, y),
{
    let c = seq![x, y];
    if literal_holds(a, x) {
        assert(literal_holds(a, c[0]));
    }
    if literal_holds(a, y) {
        assert(literal_holds(a, c[1]));
    }
}

/// A clause of three literals is true exactly when one of the three is.
pub proof fn lemma_clause_3(a: spec_fn(int) -> bool, x: int, y: int, z: int)
    ensures
        clause_holds(a, seq![x, y, z]) <==> literal_holds(a, x) || literal_holds(a, y)
            || literal_holds(a, z),
{
    let c = seq![x, y, z];
    if literal_holds(a, x) {
        assert(literal_holds(a, c[0]));
    }
    if literal_holds(a, y) {
        assert(literal_holds(a, c[1]));
    }
    if literal_holds(a, z) {
        assert(literal_holds(a, c[2]));
    }
}

/// A clause that is longer by one literal is true exactly when the shorter
/// clause or the new literal is.
pub proof fn lemma_clause_push(a: spec_fn(int) -> bool, c: Seq<int>, x: int)
    ensures
        clause_holds(a, c.push(x)) <==> clause_holds(a, c) || literal_holds(a, x),
{
    let d = c.push(x);
    if clause_holds(a, c) {
        let k = choose|k: int| 0 <= k < c.len() && literal_holds(a, #[trigger] c[k]);
        assert(literal_holds(a, d[k]));
    }
    if literal_holds(a, x) {
        assert(literal_holds(a, d[c.len() as int]));
    }
    if clause_holds(a, d) {
        let k = choose|k: int| 0 <= k < d.len() && literal_holds(a, #[trigger] d[k]);
        if k < c.len() {
            assert(literal_holds(a, c[k]));
        }
    }
}

/// A list of one clause is satisfied exactly when the clause is true.
pub proof fn lemma_satisfies_1(a: spec_fn(int) -> bool, c: Seq<int>)
    ensures
        satisfies(a, seq![c]) <==> clause_holds(a, c),
{
    let cs = seq![c];
    if satisfies(a, cs) {
        assert(clause_holds(a, cs[0]));
    }
}

/// Two assignments that agree on the variables of a clause make it true or
/// false together.
pub proof fn lemma_agree_clause(
    a: spec_fn(int) -> bool,
    b: spec_fn(int) -> bool,
    n: nat,
    c: Seq<int>,
)
    requires
        agree(a, b, n),
        clause_within(c, n),
    ensures
        clause_holds(a, c) == clause_holds(b, c),
{
    assert forall|k: int| 0 <= k < c.len() implies literal_holds(a, #[trigger] c[k])
        == literal_holds(b, c[k]) by {
        if c[k] > 0 {
            assert(a(c[k]) == b(c[k]));
        } else {
            assert(a(-c[k]) == b(-c[k]));
        }
    }
    if clause_holds(a, c) {
        let k = choose|k: int| 0 <= k < c.len() && literal_holds(a, #[trigger] c[k]);
        assert(literal_holds(b, c[k]));
    }
    if clause_holds(b, c) {
        let k = choose|k: int| 0 <= k < c.len() && literal_holds(b, #[trigger] c[k]);
        assert(literal_holds(a, c[k]));
    }
}

/// Two assignments that agree on the variables of a list of clauses satisfy
/// it together or not at all.
pub proof fn lemma_agree_satisfies(
    a: spec_fn(int) -> bool,
    b: spec_fn(int) -> bool,
    n: nat,
    cs: Seq<Seq<int>>,
)
    requires
        agree(a, b, n),
        within(cs, n),
    ensures
        satisfies(a, cs) == satisfies(b, cs),
{
    assert forall|k: int| 0 <= k < cs.len() implies clause_holds(a, #[trigger] cs[k])
        == clause_holds(b, cs[k]) by {
        lemma_agree_clause(a, b, n, cs[k]);
    }
}

/// Clause lists within some number of variables stay so when put together.
pub proof fn lemma_within_concat(x: Seq<Seq<int>>, y: Seq<Seq<int>>, n: nat)
    ensures
        within(x + y, n) <==> within(x, n) && within(y, n),
{
    if within(x + y, n) {
        assert forall|k: int| 0 <= k < x.len() implies clause_within(#[trigger] x[k], n) by {
            assert((x + y)[k] == x[k]);
        }
        assert forall|k: int| 0 <= k < y.len() implies clause_within(#[trigger] y[k], n) by {
            assert((x + y)[x.len() + k] == y[k]);
        }
    }
    if within(x, n) && within(y, n) {
        assert forall|k: int| 0 <= k < (x + y).len() implies clause_within(
            #[trigger] (x + y)[k],
            n,
        ) by {
            if k < x.len() {
                assert((x + y)[k] == x[k]);
            } else {
                assert((x + y)[k] == y[k - x.len()]);
            }
        }
    }
}

/// Clauses within some number of variables are within every larger number.
pub proof fn lemma_within_more(cs: Seq<Seq<int>>, n: nat, m: nat)
    requires
        within(cs, n),
        n <= m,
    ensures
        within(cs, m),
{
    assert forall|k: int| 0 <= k < cs.len() implies clause_within(#[trigger] cs[k], m) by {
        let c = cs[k];
        assert(clause_within(c, n));
        assert forall|j: int| 0 <= j < c.len() implies 1 <= #[trigger] c[j] <= m || 1 <= -c[j]
            <= m by {
            assert(1 <= c[j] <= n || 1 <= -c[j] <= n);
        }
    }
}

/// A set of clauses put together from two parts is satisfied exactly when
/// both parts are.
pub proof fn lemma_satisfies_concat(a: spec_fn(int) -> bool, x: Seq<Seq<int>>, y: Seq<Seq<int>>)
    ensures
        satisfies(a, x + y) <==> satisfies(a, x) && satisfies(a, y),
{
    if satisfies(a, x + y) {
        assert forall|k: int| 0 <= k < x.len() implies clause_holds(a, #[trigger] x[k]) by {
            assert((x + y)[k] == x[k]);
        }
        assert forall|k: int| 0 <= k < y.len() implies clause_holds(a, #[trigger] y[k]) by {
            assert((x + y)[x.len() + k] == y[k]);
        }
    }
    if satisfies(a, x) && satisfies(a, y) {
        assert forall|k: int| 0 <= k < (x + y).len() implies clause_holds(
            a,
            #[trigger] (x + y)[k],
        ) by {
            if k < x.len() {
                assert((x + y)[k] == x[k]);
            } else {
                assert((x + y)[k] == y[k - x.len()]);
            }
        }
    }
}

/// The `k` variables that follow the first `base`.
pub open spec fn fresh(base: nat, k: nat) -> Seq<int> {
    Seq::new(k, |i: int| base + 1 + i)
}

/// The list whose element `2 * i` is `even(i)` and whose element `2 * i + 1`
/// is `odd(i)`, for `i` below `n`.
pub open spec fn interleaved(
    n: nat,
    even: spec_fn(int) -> Seq<int>,
    odd: spec_fn(int) -> Seq<int>,
) -> Seq<Seq<int>> {
    Seq::new(
        2 * n,
        |k: int|
            if k % 2 == 0 {
                even(k / 2)
            } else {
                odd(k / 2)
            },
    )
}

/// The clauses `2 * i` and `2 * i + 1` of `cs` are both true under `a`.
pub open spec fn pair_holds(a: spec_fn(int) -> bool, cs: Seq<Seq<int>>, i: int) -> bool {
    clause_holds(a, cs[2 * i]) && clause_holds(a, cs[2 * i + 1])
}

/// A list of `2 * n` clauses is satisfied exactly when each of its `n` pairs
/// of neighbouring clauses is.
pub proof fn lemma_satisfies_pairs(a: spec_fn(int) -> bool, cs: Seq<Seq<int>>, n: nat)
    requires
        cs.len() == 2 * n,
    ensures
        satisfies(a, cs) <==> (forall|i: int| 0 <= i < n ==> #[trigger] pair_holds(a, cs, i)),
{
    if satisfies(a, cs) {
        assert forall|i: int| 0 <= i < n implies #[trigger] pair_holds(a, cs, i) by {
            assert(clause_holds(a, cs[2 * i]));
            assert(clause_holds(a, cs[2 * i + 1]));
        }
    }
    if forall|i: int| 0 <= i < n ==> #[trigger] pair_holds(a, cs, i) {
        assert forall|k: int| 0 <= k < cs.len() implies clause_holds(a, #[trigger] cs[k]) by {
            let i = k / 2;
            assert(pair_holds(a, cs, i));
            if k % 2 == 0 {
                assert(k == 2 * i);
            } else {
                assert(k == 2 * i + 1);
            }
        }
    }
}

/// The clauses `2 * i` and `2 * i + 1` of `cs` speak of the variables
/// `1..=m` only.
pub open spec fn pair_within(cs: Seq<Seq<int>>, i: int, m: nat) -> bool {
    clause_within(cs[2 * i], m) && clause_within(cs[2 * i + 1], m)
}

/// A list of `2 * n` clauses is within some number of variables if each of
/// its `n` pairs of neighbouring clauses is.
pub proof fn lemma_within_pairs(cs: Seq<Seq<int>>, n: nat, m: nat)
    requires
        cs.len() == 2 * n,
        forall|i: int| 0 <= i < n ==> #[trigger] pair_within(cs, i, m),
    ensures
        within(cs, m),
{
    assert forall|k: int| 0 <= k < cs.len() implies clause_within(#[trigger] cs[k], m) by {
        let i = k / 2;
        assert(pair_within(cs, i, m));
        if k % 2 == 0 {
            assert(k == 2 * i);
        } else {
            assert(k == 2 * i + 1);
        }
    }
}

/// Lists of clauses within some number of variables, put together, are
/// within that number.
pub proof fn lemma_within_joined(n: nat, part: spec_fn(int) -> Seq<Seq<int>>, m: nat)
    requires
        forall|k: int| 0 <= k < n ==> within(#[trigger] part(k), m),
    ensures
        within(joined(n, part), m),
    decreases n,
{
    if n > 0 {
        lemma_within_joined((n - 1) as nat, part, m);
        assert(within(part(n - 1), m));
        lemma_within_concat(joined((n - 1) as nat, part), part(n - 1), m);
    }
}

/// The lists `part(0)`, ..., `part(n - 1)`, put together in this order.
pub open spec fn joined<A>(n: nat, part: spec_fn(int) -> Seq<A>) -> Seq<A>
    decreases n,
{
    if n == 0 {
        Seq::empty()
    } else {
        joined((n - 1) as nat, part) + part(n - 1)
    }
}

/// Lists put together are satisfied exactly when each of them is.
pub proof fn lemma_satisfies_joined(
    a: spec_fn(int) -> bool,
    n: nat,
    part: spec_fn(int) -> Seq<Seq<int>>,
)
    ensures
        satisfies(a, joined(n, part)) <==> (forall|k: int|
            0 <= k < n ==> satisfies(a, #[trigger] part(k))),
    decreases n,
{
    if n > 0 {
        lemma_satisfies_joined(a, (n - 1) as nat, part);
        lemma_satisfies_concat(a, joined((n - 1) as nat, part), part(n - 1));
        if forall|k: int| 0 <= k < n ==> satisfies(a, #[trigger] part(k)) {
            assert(satisfies(a, part(n - 1)));
        }
    }
}

/// Appending lists is associative.
pub proof fn lemma_append_assoc<A>(x: Seq<A>, y: Seq<A>, z: Seq<A>)
    ensures
        (x + y) + z == x + (y + z),
{
    assert((x + y) + z =~= x + (y + z));
}

/// A list followed by the first `k + 1` elements of another is the list
/// followed by the first `k` of them and then by the next.
pub proof fn lemma_extend<A>(start: Seq<A>, xs: Seq<A>, k: int)
    requires
        0 <= k < xs.len(),
    ensures
        (start + xs.take(k)).push(xs[k]) == start + xs.take(k + 1),
{
    assert((start + xs.take(k)).push(xs[k]) =~= start + xs.take(k + 1));
}

/// A list followed by the first `n` of the lists `part(0)`, `part(1)`, ...
/// and then by `part(n)` is the list followed by the first `n + 1` of them.
pub proof fn lemma_join_next<A>(start: Seq<A>, n: nat, part: spec_fn(int) -> Seq<A>)
    ensures
        (start + joined(n, part)) + part(n as int) == start + joined(n + 1, part),
{
    lemma_append_assoc(start, joined(n, part), part(n as int));
}

} // verus!
