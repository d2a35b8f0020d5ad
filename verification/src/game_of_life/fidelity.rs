//! What the clauses of one lookup table mean: how the table is fed, and
//! that its output is the entry of its truth table that its inputs spell.

use crate::cardinality::{exactly_once_clauses, exactly_once_variables};
use crate::cardinality::meaning::{
    lemma_agree_variables, lemma_exactly_once_complete, lemma_exactly_once_sound,
    lemma_exactly_once_within,
};
use crate::cnf::Formula;
use crate::comparator::{comparator_variables, less_than_equal_clauses};
use crate::comparator::meaning::{
    compared, lemma_comparison_clauses_within, lemma_less_than_equal_complete,
    lemma_less_than_equal_sound, lemma_value_agree, lemma_value_zero, value,
};
use crate::game_of_life::lut::{
    cell, cell_clauses, cell_variables, connection_clauses, connection_part, output_clauses, reach,
    row, row_literal, side_connections, Cell,
};
use crate::logic::{
    agree, at_most_one, clause_holds, exactly_one, lemma_agree_chain, lemma_agree_satisfies, lemma_clause_3,
    lemma_clause_push, lemma_satisfies_concat, lemma_satisfies_joined, lemma_satisfies_pairs,
    lemma_within_concat, lemma_within_joined, lemma_within_more, lemma_within_pairs, pair_holds,
    pair_within, satisfies, variables_within, within,
};
use vstd::arithmetic::power2::{lemma_pow2_strictly_increases, lemma_pow2_unfold, pow2};
use vstd::prelude::*;

verus! {

/// One if `v` is true under `a`, zero if it is false.
pub open spec fn digit_of(a: spec_fn(int) -> bool, v: int) -> int {
    if a(v) {
        1
    } else {
        0
    }
}

/// The number that the values of three variables spell under `a`, the first
/// being the least significant binary digit.
pub open spec fn spelled(a: spec_fn(int) -> bool, inputs: Seq<int>) -> int {
    digit_of(a, inputs[0]) + 2 * digit_of(a, inputs[1]) + 4 * digit_of(a, inputs[2])
}

/// The literals of row `i` are all false exactly when the inputs spell `i`.
pub proof fn lemma_row(a: spec_fn(int) -> bool, inputs: Seq<int>, i: int)
    requires
        0 <= i < 8,
        inputs.len() == 3,
        inputs[0] >= 1,
        inputs[1] >= 1,
        inputs[2] >= 1,
    ensures
        clause_holds(a, row(inputs, i)) <==> spelled(a, inputs) != i,
{
    lemma_clause_3(
        a,
        row_literal(inputs[2], (i / 4) % 2 == 1),
        row_literal(inputs[1], (i / 2) % 2 == 1),
        row_literal(inputs[0], i % 2 == 1),
    );
}

/// The clauses of `output_clauses` are satisfied exactly when the output has
/// the value of the entry that the inputs spell.
pub proof fn lemma_output(
    a: spec_fn(int) -> bool,
    table: Seq<int>,
    inputs: Seq<int>,
    output: int,
    n: nat,
)
    requires
        table.len() == 8,
        inputs.len() == 3,
        variables_within(table, n),
        variables_within(inputs, n),
        1 <= output,
    ensures
        satisfies(a, output_clauses(table, inputs, output)) <==> a(output) == a(
            table[spelled(a, inputs)],
        ),
{
    reveal(output_clauses);
    let clauses = output_clauses(table, inputs, output);
    assert(1 <= inputs[0] <= n && 1 <= inputs[1] <= n && 1 <= inputs[2] <= n);
    lemma_satisfies_pairs(a, clauses, 8);
    assert forall|i: int| 0 <= i < 8 implies (#[trigger] pair_holds(a, clauses, i) <==> (spelled(
        a,
        inputs,
    ) == i ==> a(output) == a(table[i]))) by {
        assert(1 <= table[i] <= n);
        lemma_row(a, inputs, i);
        lemma_clause_push(a, row(inputs, i), output);
        lemma_clause_push(a, row(inputs, i).push(output), -table[i]);
        lemma_clause_push(a, row(inputs, i), -output);
        lemma_clause_push(a, row(inputs, i).push(-output), table[i]);
    }
    let r = spelled(a, inputs);
    if satisfies(a, clauses) {
        assert(pair_holds(a, clauses, r));
    }
}

/// Under `a`, the input of a side has the value of each signal that feeds
/// the side.
pub open spec fn connected(
    a: spec_fn(int) -> bool,
    nodes: Seq<int>,
    input: int,
    state: Seq<int>,
) -> bool {
    forall|i: int|
        0 <= i < reach(nodes.len(), state.len()) ==> (a(#[trigger] nodes[i]) ==> a(input) == a(
            state[i],
        ))
}

/// The clauses of `side_connections` are satisfied exactly when the input of
/// the side has the value of each signal that feeds it.
pub proof fn lemma_side_connections(
    a: spec_fn(int) -> bool,
    nodes: Seq<int>,
    input: int,
    state: Seq<int>,
    n: nat,
)
    requires
        variables_within(nodes, n),
        variables_within(state, n),
        1 <= input,
    ensures
        satisfies(a, side_connections(nodes, input, state)) <==> connected(a, nodes, input, state),
{
    reveal(side_connections);
    let clauses = side_connections(nodes, input, state);
    let count = reach(nodes.len(), state.len());
    lemma_satisfies_pairs(a, clauses, count);
    assert forall|i: int| 0 <= i < count implies (#[trigger] pair_holds(a, clauses, i) <==> (a(
        nodes[i],
    ) ==> a(input) == a(state[i]))) by {
        assert(1 <= nodes[i] <= n && 1 <= state[i] <= n);
        lemma_clause_3(a, -nodes[i], state[i], -input);
        lemma_clause_3(a, -nodes[i], -state[i], input);
    }
    if satisfies(a, clauses) {
        assert forall|i: int| 0 <= i < count && a(#[trigger] nodes[i]) implies a(input) == a(
            state[i],
        ) by {
            assert(pair_holds(a, clauses, i));
        }
    }
    if connected(a, nodes, input, state) {
        assert forall|i: int| 0 <= i < count implies #[trigger] pair_holds(a, clauses, i) by {
            assert(a(nodes[i]) ==> a(input) == a(state[i]));
        }
    }
}

/// The clauses of `connection_clauses` are satisfied exactly when the input
/// of each side has the value of each signal that feeds the side.
pub proof fn lemma_connections(
    a: spec_fn(int) -> bool,
    c: Cell,
    inputs: Seq<int>,
    state: Seq<int>,
    n: nat,
)
    requires
        c.wf(),
        inputs.len() == 3,
        variables_within(c.sides[0], n),
        variables_within(c.sides[1], n),
        variables_within(c.sides[2], n),
        variables_within(inputs, n),
        variables_within(state, n),
    ensures
        satisfies(a, connection_clauses(c, inputs, state)) <==> (forall|side: int|
            0 <= side < 3 ==> connected(a, #[trigger] c.sides[side], inputs[side], state)),
{
    let part = connection_part(c, inputs, state);
    lemma_satisfies_joined(a, 3, part);
    assert forall|side: int| 0 <= side < 3 implies (satisfies(a, #[trigger] part(side))
        <==> connected(a, c.sides[side], inputs[side], state)) by {
        assert(1 <= inputs[side] <= n);
        lemma_side_connections(a, c.sides[side], inputs[side], state, n);
    }
    if satisfies(a, connection_clauses(c, inputs, state)) {
        assert forall|side: int| 0 <= side < 3 implies connected(
            a,
            #[trigger] c.sides[side],
            inputs[side],
            state,
        ) by {
            assert(satisfies(a, part(side)));
        }
    }
    if forall|side: int|
        0 <= side < 3 ==> connected(a, #[trigger] c.sides[side], inputs[side], state) {
        assert forall|side: int| 0 <= side < 3 implies satisfies(a, #[trigger] part(side)) by {
            assert(connected(a, c.sides[side], inputs[side], state));
        }
    }
}

/// The number that the signals which feed the three sides spell under `a`.
pub open spec fn fed(a: spec_fn(int) -> bool, state: Seq<int>, chosen: Seq<int>) -> int {
    digit_of(a, state[chosen[0]]) + 2 * digit_of(a, state[chosen[1]]) + 4 * digit_of(
        a,
        state[chosen[2]],
    )
}

/// A table that is wired into a state puts out the entry of its truth table
/// that the signals feeding it spell: under every assignment that satisfies
/// the clauses of its output and of its connections, and under which side
/// `s` is fed by signal `chosen[s]`, the output has the value of the entry
/// whose number has the value of signal `chosen[0]` as its lowest digit, that
/// of signal `chosen[1]` as the next, and that of signal `chosen[2]` as the
/// highest.
pub proof fn lemma_fidelity(
    a: spec_fn(int) -> bool,
    c: Cell,
    inputs: Seq<int>,
    state: Seq<int>,
    output: int,
    chosen: Seq<int>,
    n: nat,
)
    requires
        c.wf(),
        inputs.len() == 3,
        chosen.len() == 3,
        variables_within(c.sides[0], n),
        variables_within(c.sides[1], n),
        variables_within(c.sides[2], n),
        variables_within(c.table, n),
        variables_within(inputs, n),
        variables_within(state, n),
        1 <= output,
        forall|side: int|
            0 <= side < 3 ==> 0 <= #[trigger] chosen[side] < reach(c.width(), state.len()),
        forall|side: int| 0 <= side < 3 ==> a(c.sides[side][#[trigger] chosen[side]]),
        satisfies(a, output_clauses(c.table, inputs, output)),
        satisfies(a, connection_clauses(c, inputs, state)),
    ensures
        a(output) == a(c.table[fed(a, state, chosen)]),
{
    lemma_output(a, c.table, inputs, output, n);
    lemma_connections(a, c, inputs, state, n);
    assert forall|side: int| 0 <= side < 3 implies a(inputs[side]) == a(
        state[#[trigger] chosen[side]],
    ) by {
        assert(connected(a, c.sides[side], inputs[side], state));
        assert(a(c.sides[side][chosen[side]]));
    }
    assert(a(inputs[0]) == a(state[chosen[0]]));
    assert(a(inputs[1]) == a(state[chosen[1]]));
    assert(a(inputs[2]) == a(state[chosen[2]]));
}

/// Under `a`, each side of the table is fed by exactly one signal, and the
/// signal of each side is at most that of the next: read as binary numbers,
/// the choices of a side are at most those of the next side. Two sides may
/// be fed by the same signal.
pub open spec fn fed_in_order(a: spec_fn(int) -> bool, c: Cell) -> bool {
    &&& exactly_one(a, c.sides[0])
    &&& exactly_one(a, c.sides[1])
    &&& exactly_one(a, c.sides[2])
    &&& value(a, c.sides[0]) <= value(a, c.sides[1])
    &&& value(a, c.sides[1]) <= value(a, c.sides[2])
}

/// Under `a`, the variables `vs` say that signal `k` is chosen: the variable
/// at position `k` is true, and all others are false.
pub open spec fn chooses(a: spec_fn(int) -> bool, vs: Seq<int>, k: int) -> bool {
    &&& 0 <= k < vs.len()
    &&& forall|j: int| 0 <= j < vs.len() ==> a(#[trigger] vs[j]) == (j == k)
}

/// Under `a`, the three sides of the table are fed by the signals `i0`, `i1`
/// and `i2`.
pub open spec fn fed_by(a: spec_fn(int) -> bool, c: Cell, i0: int, i1: int, i2: int) -> bool {
    &&& chooses(a, c.sides[0], i0)
    &&& chooses(a, c.sides[1], i1)
    &&& chooses(a, c.sides[2], i2)
}

/// Choices of which exactly signal `k` is chosen have exactly one true
/// variable, and spell the number two to the power of `k`.
pub proof fn lemma_chosen_value(a: spec_fn(int) -> bool, vs: Seq<int>, k: int)
    requires
        chooses(a, vs, k),
    ensures
        exactly_one(a, vs),
        value(a, vs) == pow2(k as nat),
    decreases vs.len(),
{
    assert(a(vs[k]));
    assert forall|i: int, j: int| #![trigger vs[i], vs[j]] 0 <= i < j < vs.len() implies !(a(vs[i])
        && a(vs[j])) by {
        assert(a(vs[i]) == (i == k));
        assert(a(vs[j]) == (j == k));
    }
    let rest = vs.drop_first();
    if k == 0 {
        assert forall|j: int| 0 <= j < rest.len() implies !a(#[trigger] rest[j]) by {
            assert(a(vs[j + 1]) == (j + 1 == k));
        }
        lemma_value_zero(a, rest);
        assert(pow2(0) == 1) by {
            vstd::arithmetic::power2::lemma2_to64();
        }
    } else {
        assert(a(vs[0]) == (0 == k));
        assert forall|j: int| 0 <= j < rest.len() implies a(#[trigger] rest[j]) == (j == k - 1) by {
            assert(a(vs[j + 1]) == (j + 1 == k));
        }
        lemma_chosen_value(a, rest, k - 1);
        lemma_pow2_unfold(k as nat);
    }
}

/// Choices with exactly one true variable choose the signal at the position
/// of that variable.
pub proof fn lemma_chosen(a: spec_fn(int) -> bool, vs: Seq<int>) -> (k: int)
    requires
        exactly_one(a, vs),
    ensures
        chooses(a, vs, k),
{
    let k = choose|k: int| 0 <= k < vs.len() && a(#[trigger] vs[k]);
    assert forall|j: int| 0 <= j < vs.len() implies a(#[trigger] vs[j]) == (j == k) by {
        if j < k {
            assert(!(a(vs[j]) && a(vs[k])));
        }
        if k < j {
            assert(!(a(vs[k]) && a(vs[j])));
        }
    }
    k
}

/// The signal chosen on one side is at most the signal chosen on another
/// exactly when the choices of the one, read as a binary number, are at
/// most those of the other.
pub proof fn lemma_order_of_choices(
    a: spec_fn(int) -> bool,
    lhs: Seq<int>,
    rhs: Seq<int>,
    i: int,
    j: int,
)
    requires
        chooses(a, lhs, i),
        chooses(a, rhs, j),
    ensures
        i <= j <==> value(a, lhs) <= value(a, rhs),
{
    lemma_chosen_value(a, lhs, i);
    lemma_chosen_value(a, rhs, j);
    if i < j {
        lemma_pow2_strictly_increases(i as nat, j as nat);
    }
    if j < i {
        lemma_pow2_strictly_increases(j as nat, i as nat);
    }
}

/// A table is fed in order exactly when its three sides are fed by signals
/// `i0 <= i1 <= i2`: each side has the variable of its signal true and all
/// its other choices false.
pub proof fn lemma_fed_in_order(a: spec_fn(int) -> bool, c: Cell)
    ensures
        fed_in_order(a, c) <==> exists|i0: int, i1: int, i2: int|
            i0 <= i1 <= i2 && #[trigger] fed_by(a, c, i0, i1, i2),
{
    if fed_in_order(a, c) {
        let i0 = lemma_chosen(a, c.sides[0]);
        let i1 = lemma_chosen(a, c.sides[1]);
        let i2 = lemma_chosen(a, c.sides[2]);
        lemma_order_of_choices(a, c.sides[0], c.sides[1], i0, i1);
        lemma_order_of_choices(a, c.sides[1], c.sides[2], i1, i2);
        assert(i0 <= i1 <= i2 && fed_by(a, c, i0, i1, i2));
    }
    if exists|i0: int, i1: int, i2: int| i0 <= i1 <= i2 && #[trigger] fed_by(a, c, i0, i1, i2) {
        let (i0, i1, i2) = choose|i0: int, i1: int, i2: int|
            i0 <= i1 <= i2 && #[trigger] fed_by(a, c, i0, i1, i2);
        lemma_chosen_value(a, c.sides[0], i0);
        lemma_chosen_value(a, c.sides[1], i1);
        lemma_chosen_value(a, c.sides[2], i2);
        lemma_order_of_choices(a, c.sides[0], c.sides[1], i0, i1);
        lemma_order_of_choices(a, c.sides[1], c.sides[2], i1, i2);
    }
}

/// Every assignment that satisfies the clauses of a new table feeds each of
/// its sides by exactly one signal, and no side by a later signal than the
/// next side: read as binary numbers, the choices of each side are at most
/// those of the next.
pub proof fn lemma_cell_sound(a: spec_fn(int) -> bool, base: nat, m: nat)
    requires
        0 < m,
        satisfies(a, cell_clauses(base, m)),
    ensures
        exactly_one(a, cell(base, m).sides[0]),
        exactly_one(a, cell(base, m).sides[1]),
        exactly_one(a, cell(base, m).sides[2]),
        value(a, cell(base, m).sides[0]) <= value(a, cell(base, m).sides[1]),
        value(a, cell(base, m).sides[1]) <= value(a, cell(base, m).sides[2]),
{
    reveal(cell_clauses);
    let c = cell(base, m);
    let b = base + 3 * m + 8;
    let e = exactly_once_variables(m);
    let k = comparator_variables(m, m);
    let once_0 = exactly_once_clauses(b, c.sides[0]);
    let once_1 = exactly_once_clauses(b + e, c.sides[1]);
    let once_2 = exactly_once_clauses(b + 2 * e, c.sides[2]);
    let less_0 = less_than_equal_clauses(b + 3 * e, c.sides[0], c.sides[1]);
    let less_1 = less_than_equal_clauses(b + 3 * e + k, c.sides[1], c.sides[2]);
    lemma_satisfies_concat(a, once_0 + once_1 + once_2 + less_0, less_1);
    lemma_satisfies_concat(a, once_0 + once_1 + once_2, less_0);
    lemma_satisfies_concat(a, once_0 + once_1, once_2);
    lemma_satisfies_concat(a, once_0, once_1);
    assert(variables_within(c.sides[0], b));
    assert(variables_within(c.sides[1], b));
    assert(variables_within(c.sides[2], b));
    assert(variables_within(c.sides[1], b + e));
    assert(variables_within(c.sides[2], b + 2 * e));
    assert(variables_within(c.sides[0], b + 3 * e));
    assert(variables_within(c.sides[1], b + 3 * e));
    assert(variables_within(c.sides[1], b + 3 * e + k));
    assert(variables_within(c.sides[2], b + 3 * e + k));
    lemma_exactly_once_sound(a, b, c.sides[0]);
    lemma_exactly_once_sound(a, b + e, c.sides[1]);
    lemma_exactly_once_sound(a, b + 2 * e, c.sides[2]);
    lemma_less_than_equal_sound(a, b + 3 * e, c.sides[0], c.sides[1]);
    lemma_less_than_equal_sound(a, b + 3 * e + k, c.sides[1], c.sides[2]);
}

/// The clauses of a new table speak of its own variables only.
pub proof fn lemma_cell_within(base: nat, m: nat)
    requires
        0 < m,
    ensures
        within(cell_clauses(base, m), base + cell_variables(m)),
{
    reveal(cell_clauses);
    let c = cell(base, m);
    let b = base + 3 * m + 8;
    let e = exactly_once_variables(m);
    let k = comparator_variables(m, m);
    let top = base + cell_variables(m);
    let once_0 = exactly_once_clauses(b, c.sides[0]);
    let once_1 = exactly_once_clauses(b + e, c.sides[1]);
    let once_2 = exactly_once_clauses(b + 2 * e, c.sides[2]);
    let less_0 = less_than_equal_clauses(b + 3 * e, c.sides[0], c.sides[1]);
    let less_1 = less_than_equal_clauses(b + 3 * e + k, c.sides[1], c.sides[2]);
    assert(variables_within(c.sides[0], b));
    assert(variables_within(c.sides[1], b + e));
    assert(variables_within(c.sides[2], b + 2 * e));
    assert(variables_within(c.sides[0], b + 3 * e));
    assert(variables_within(c.sides[1], b + 3 * e));
    assert(variables_within(c.sides[1], b + 3 * e + k));
    assert(variables_within(c.sides[2], b + 3 * e + k));
    lemma_exactly_once_within(b, c.sides[0]);
    lemma_exactly_once_within(b + e, c.sides[1]);
    lemma_exactly_once_within(b + 2 * e, c.sides[2]);
    lemma_comparison_clauses_within(b + 3 * e, c.sides[0], c.sides[1]);
    lemma_comparison_clauses_within(b + 3 * e + k, c.sides[1], c.sides[2]);
    lemma_within_more(once_0, b + e, top);
    lemma_within_more(once_1, b + 2 * e, top);
    lemma_within_more(once_2, b + 3 * e, top);
    lemma_within_more(less_0, b + 3 * e + k, top);
    lemma_within_concat(once_0, once_1, top);
    lemma_within_concat(once_0 + once_1, once_2, top);
    lemma_within_concat(once_0 + once_1 + once_2, less_0, top);
    lemma_within_concat(once_0 + once_1 + once_2 + less_0, less_1, top);
}

/// Every assignment under which each side of a table is fed by exactly one
/// signal, and no side by a later signal than the next side, can be given
/// values for the other variables of the table's constraints so that it
/// satisfies the clauses of the table. The result differs from `a` on none of
/// the variables before those, the table's own choices and truth table among
/// them.
pub proof fn lemma_cell_complete(a: spec_fn(int) -> bool, base: nat, m: nat) -> (b: spec_fn(
    int,
) -> bool)
    requires
        0 < m,
        exactly_one(a, cell(base, m).sides[0]),
        exactly_one(a, cell(base, m).sides[1]),
        exactly_one(a, cell(base, m).sides[2]),
        value(a, cell(base, m).sides[0]) <= value(a, cell(base, m).sides[1]),
        value(a, cell(base, m).sides[1]) <= value(a, cell(base, m).sides[2]),
    ensures
        agree(a, b, base + 3 * m + 8),
        satisfies(b, cell_clauses(base, m)),
{
    reveal(cell_clauses);
    let c = cell(base, m);
    let s = base + 3 * m + 8;
    let e = exactly_once_variables(m);
    let k = comparator_variables(m, m);
    let once_0 = exactly_once_clauses(s, c.sides[0]);
    let once_1 = exactly_once_clauses(s + e, c.sides[1]);
    let once_2 = exactly_once_clauses(s + 2 * e, c.sides[2]);
    let less_0 = less_than_equal_clauses(s + 3 * e, c.sides[0], c.sides[1]);
    let less_1 = less_than_equal_clauses(s + 3 * e + k, c.sides[1], c.sides[2]);
    assert(variables_within(c.sides[0], s));
    assert(variables_within(c.sides[1], s));
    assert(variables_within(c.sides[2], s));
    assert(variables_within(c.sides[1], s + e));
    assert(variables_within(c.sides[2], s + 2 * e));
    assert(variables_within(c.sides[0], s + 3 * e));
    assert(variables_within(c.sides[1], s + 3 * e));
    assert(variables_within(c.sides[1], s + 3 * e + k));
    assert(variables_within(c.sides[2], s + 3 * e + k));
    lemma_exactly_once_within(s, c.sides[0]);
    lemma_exactly_once_within(s + e, c.sides[1]);
    lemma_exactly_once_within(s + 2 * e, c.sides[2]);
    lemma_comparison_clauses_within(s + 3 * e, c.sides[0], c.sides[1]);

    // Exactly one signal feeds the first side.
    let b0 = lemma_exactly_once_complete(a, s, c.sides[0]);
    // Exactly one signal feeds the second side.
    lemma_agree_variables(a, b0, s, c.sides[1]);
    let b1 = lemma_exactly_once_complete(b0, s + e, c.sides[1]);
    lemma_agree_satisfies(b0, b1, s + e, once_0);
    lemma_agree_chain(a, b0, b1, s, s + e);
    // Exactly one signal feeds the third side.
    lemma_agree_variables(a, b1, s, c.sides[2]);
    let b2 = lemma_exactly_once_complete(b1, s + 2 * e, c.sides[2]);
    lemma_within_more(once_0, s + e, s + 2 * e);
    lemma_agree_satisfies(b1, b2, s + 2 * e, once_0);
    lemma_agree_satisfies(b1, b2, s + 2 * e, once_1);
    lemma_agree_chain(a, b1, b2, s, s + 2 * e);
    // The signal of the first side comes before that of the second.
    lemma_value_agree(a, b2, s, c.sides[0]);
    lemma_value_agree(a, b2, s, c.sides[1]);
    lemma_value_agree(a, b2, s, c.sides[2]);
    lemma_less_than_equal_complete(b2, s + 3 * e, c.sides[0], c.sides[1]);
    let b3 = compared(b2, s + 3 * e, c.sides[0], c.sides[1]);
    lemma_within_more(once_0, s + e, s + 3 * e);
    lemma_within_more(once_1, s + 2 * e, s + 3 * e);
    lemma_agree_satisfies(b2, b3, s + 3 * e, once_0);
    lemma_agree_satisfies(b2, b3, s + 3 * e, once_1);
    lemma_agree_satisfies(b2, b3, s + 3 * e, once_2);
    lemma_agree_chain(a, b2, b3, s, s + 3 * e);
    // The signal of the second side comes before that of the third.
    lemma_value_agree(a, b3, s, c.sides[1]);
    lemma_value_agree(a, b3, s, c.sides[2]);
    lemma_less_than_equal_complete(b3, s + 3 * e + k, c.sides[1], c.sides[2]);
    let b4 = compared(b3, s + 3 * e + k, c.sides[1], c.sides[2]);
    lemma_within_more(once_0, s + e, s + 3 * e + k);
    lemma_within_more(once_1, s + 2 * e, s + 3 * e + k);
    lemma_within_more(once_2, s + 3 * e, s + 3 * e + k);
    lemma_agree_satisfies(b3, b4, s + 3 * e + k, once_0);
    lemma_agree_satisfies(b3, b4, s + 3 * e + k, once_1);
    lemma_agree_satisfies(b3, b4, s + 3 * e + k, once_2);
    lemma_agree_satisfies(b3, b4, s + 3 * e + k, less_0);
    lemma_agree_chain(a, b3, b4, s, s + 3 * e + k);
    lemma_satisfies_concat(b4, once_0, once_1);
    lemma_satisfies_concat(b4, once_0 + once_1, once_2);
    lemma_satisfies_concat(b4, once_0 + once_1 + once_2, less_0);
    lemma_satisfies_concat(b4, once_0 + once_1 + once_2 + less_0, less_1);
    b4
}

/// The clauses that wire a table into a state speak of the table, of its
/// inputs, of its output and of the signals only.
pub proof fn lemma_wiring_within(
    c: Cell,
    inputs: Seq<int>,
    state: Seq<int>,
    output: int,
    n: nat,
)
    requires
        c.wf(),
        inputs.len() == 3,
        variables_within(c.sides[0], n),
        variables_within(c.sides[1], n),
        variables_within(c.sides[2], n),
        variables_within(c.table, n),
        variables_within(inputs, n),
        variables_within(state, n),
        1 <= output <= n,
    ensures
        within(output_clauses(c.table, inputs, output), n),
        within(connection_clauses(c, inputs, state), n),
{
    reveal(output_clauses);
    reveal(side_connections);
    let out = output_clauses(c.table, inputs, output);
    assert(1 <= inputs[0] <= n && 1 <= inputs[1] <= n && 1 <= inputs[2] <= n);
    assert forall|i: int| 0 <= i < 8 implies #[trigger] pair_within(out, i, n) by {
        assert(1 <= c.table[i] <= n);
    }
    lemma_within_pairs(out, 8, n);
    let part = connection_part(c, inputs, state);
    assert forall|side: int| 0 <= side < 3 implies within(#[trigger] part(side), n) by {
        let nodes = c.sides[side];
        let list = side_connections(nodes, inputs[side], state);
        let count = reach(nodes.len(), state.len());
        assert(1 <= inputs[side] <= n);
        assert forall|i: int| 0 <= i < count implies #[trigger] pair_within(list, i, n) by {
            assert(1 <= nodes[i] <= n && 1 <= state[i] <= n);
        }
        lemma_within_pairs(list, count, n);
    }
    lemma_within_joined(3, part, n);
}

/// Every assignment that satisfies the clauses of a new table feeds its three
/// sides by signals `i0 <= i1 <= i2` among the `m` that the table can be fed
/// by.
pub proof fn lemma_cell_sources_sound(a: spec_fn(int) -> bool, base: nat, m: nat) -> (chosen: (
    int,
    int,
    int,
))
    requires
        0 < m,
        satisfies(a, cell_clauses(base, m)),
    ensures
        0 <= chosen.0 <= chosen.1 <= chosen.2 < m,
        fed_by(a, cell(base, m), chosen.0, chosen.1, chosen.2),
{
    let c = cell(base, m);
    lemma_cell_sound(a, base, m);
    let i0 = lemma_chosen(a, c.sides[0]);
    let i1 = lemma_chosen(a, c.sides[1]);
    let i2 = lemma_chosen(a, c.sides[2]);
    lemma_order_of_choices(a, c.sides[0], c.sides[1], i0, i1);
    lemma_order_of_choices(a, c.sides[1], c.sides[2], i1, i2);
    (i0, i1, i2)
}

/// Every choice of signals `i0 <= i1 <= i2` for the three sides of a new
/// table, with any truth table, satisfies the clauses of the table: an
/// assignment that makes this choice can be given values for the other
/// variables of the table's constraints so that it satisfies them. The
/// result differs from `a` on none of the variables before those, the
/// table's own choices and truth table among them.
pub proof fn lemma_cell_sources_complete(
    a: spec_fn(int) -> bool,
    base: nat,
    m: nat,
    i0: int,
    i1: int,
    i2: int,
) -> (b: spec_fn(int) -> bool)
    requires
        0 <= i0 <= i1 <= i2 < m,
        fed_by(a, cell(base, m), i0, i1, i2),
    ensures
        agree(a, b, base + 3 * m + 8),
        satisfies(b, cell_clauses(base, m)),
{
    let c = cell(base, m);
    lemma_chosen_value(a, c.sides[0], i0);
    lemma_chosen_value(a, c.sides[1], i1);
    lemma_chosen_value(a, c.sides[2], i2);
    lemma_order_of_choices(a, c.sides[0], c.sides[1], i0, i1);
    lemma_order_of_choices(a, c.sides[1], c.sides[2], i1, i2);
    lemma_cell_complete(a, base, m)
}

/// What the clauses of a new table mean when added to a formula: the
/// assignments that satisfy the longer formula are those that satisfy the
/// shorter one and feed the table in order, each with values for the other
/// new variables.
pub proof fn lemma_cell(f: Formula, m: nat)
    requires
        f.wf(),
        0 < m,
    ensures
        forall|a: spec_fn(int) -> bool| #[trigger]
            satisfies(a, f.clauses + cell_clauses(f.variables, m)) ==> satisfies(a, f.clauses)
                && fed_in_order(a, cell(f.variables, m)),
        forall|a: spec_fn(int) -> bool| #[trigger]
            satisfies(a, f.clauses) && fed_in_order(a, cell(f.variables, m)) ==> exists|
                b: spec_fn(int) -> bool,
            | #[trigger]
                agree(a, b, f.variables + 3 * m + 8) && satisfies(
                    b,
                    f.clauses + cell_clauses(f.variables, m),
                ),
{
    let added = cell_clauses(f.variables, m);
    assert forall|a: spec_fn(int) -> bool| #[trigger]
        satisfies(a, f.clauses + added) implies satisfies(a, f.clauses) && fed_in_order(
        a,
        cell(f.variables, m),
    ) by {
        lemma_satisfies_concat(a, f.clauses, added);
        lemma_cell_sound(a, f.variables, m);
    }
    assert forall|a: spec_fn(int) -> bool| #[trigger]
        satisfies(a, f.clauses) && fed_in_order(a, cell(f.variables, m)) implies exists|
        b: spec_fn(int) -> bool,
    | #[trigger] agree(a, b, f.variables + 3 * m + 8) && satisfies(b, f.clauses + added) by {
        let b = lemma_cell_complete(a, f.variables, m);
        f.lemma_wf_within();
        lemma_agree_chain(a, b, b, f.variables, f.variables + 3 * m + 8);
        lemma_agree_satisfies(a, b, f.variables, f.clauses);
        lemma_satisfies_concat(b, f.clauses, added);
        assert(agree(a, b, f.variables + 3 * m + 8) && satisfies(b, f.clauses + added));
    }
}

} // verus!
