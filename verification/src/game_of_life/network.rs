//! The networks that the formula of a network describes: every assignment
//! that satisfies the formula describes a valid network, and every valid
//! network is described by an assignment that satisfies the formula.

use crate::cnf::Formula;
use crate::comparator::{comparator_variables, less_than_equal_clauses};
use crate::comparator::meaning::{
    compared, lemma_comparison_clauses_within, lemma_less_than_equal_complete, lemma_value_agree,
    value,
};
use crate::game_of_life::{
    cell_at, cell_clauses_at, cells, cells_variables, excitation_clauses, excitation_clauses_at,
    excitation_variables, generated, input_rules_at, inputs_of, last_uses_previous,
    lemma_cells_variables_rise, lemma_tails_variables_rise, less, lives, network, order_clauses_at,
    output_rules_at, pins, rule, signals, sources, tail_clauses_at, tails_variables,
    topology_clauses, uses, wiring_at,
};
use crate::game_of_life::fidelity::{
    connected, fed_in_order, lemma_cell_complete, lemma_cell_sound, lemma_cell_within,
    lemma_connections, lemma_output, lemma_wiring_within, spelled,
};
use crate::game_of_life::lut::{
    cell, cell_clauses, cell_variables, connection_clauses, output_clauses, reach, Cell,
};
use crate::game_of_life::meaning::{
    bit_value, lemma_ends_used, lemma_generated_sound, lemma_in_order, lemma_last_fed,
    lemma_network, lemma_rule, lemma_run_len, lemma_sources, lemma_tails_ordered, lemma_topology,
    lemma_uses, output_of, reachable, run, source, used, used_between,
};
use crate::logic::{
    agree, at_least_one, at_most_one, clause_holds, clause_within, exactly_one, joined,
    lemma_agree_chain, lemma_agree_satisfies, lemma_clause_1, lemma_satisfies_1,
    lemma_satisfies_concat, lemma_satisfies_joined, lemma_within_concat, lemma_within_joined,
    lemma_within_more, satisfies, variables_within, within,
};
use vstd::arithmetic::power2::pow2;
use vstd::prelude::*;

verus! {

/// The assignments `a` and `b` give the same values to the variables `vs`.
pub open spec fn same_on(a: spec_fn(int) -> bool, b: spec_fn(int) -> bool, vs: Seq<int>) -> bool {
    forall|k: int| 0 <= k < vs.len() ==> a(#[trigger] vs[k]) == b(vs[k])
}

/// The assignments `a` and `b` describe the same table: they give the same
/// values to its choices and to its truth table.
pub open spec fn same_cell(a: spec_fn(int) -> bool, b: spec_fn(int) -> bool, c: Cell) -> bool {
    &&& same_on(a, b, c.sides[0])
    &&& same_on(a, b, c.sides[1])
    &&& same_on(a, b, c.sides[2])
    &&& same_on(a, b, c.table)
}

/// The assignments `a` and `b` describe the same network.
pub open spec fn same_network(
    a: spec_fn(int) -> bool,
    b: spec_fn(int) -> bool,
    cells: Seq<Cell>,
) -> bool {
    forall|i: int| 0 <= i < cells.len() ==> same_cell(a, b, #[trigger] cells[i])
}

/// The assignment that is `a` on the `len` variables after the first `base`,
/// and `b` elsewhere.
pub open spec fn copy_block(
    b: spec_fn(int) -> bool,
    a: spec_fn(int) -> bool,
    base: nat,
    len: nat,
) -> spec_fn(int) -> bool {
    |v: int|
        if base < v <= base + len {
            a(v)
        } else {
            b(v)
        }
}

/// Assignments that give the same values to a list of variables agree on how
/// many of them are true, and on the number that they spell.
pub proof fn lemma_same_on(a: spec_fn(int) -> bool, b: spec_fn(int) -> bool, vs: Seq<int>)
    requires
        same_on(a, b, vs),
    ensures
        at_least_one(a, vs) == at_least_one(b, vs),
        at_most_one(a, vs) == at_most_one(b, vs),
        value(a, vs) == value(b, vs),
    decreases vs.len(),
{
    if at_least_one(a, vs) {
        let k = choose|k: int| 0 <= k < vs.len() && a(#[trigger] vs[k]);
        assert(b(vs[k]));
    }
    if at_least_one(b, vs) {
        let k = choose|k: int| 0 <= k < vs.len() && b(#[trigger] vs[k]);
        assert(a(vs[k]));
    }
    if at_most_one(a, vs) {
        assert forall|i: int, j: int| #![trigger vs[i], vs[j]] 0 <= i < j < vs.len() implies !(b(
            vs[i],
        ) && b(vs[j])) by {
            assert(!(a(vs[i]) && a(vs[j])));
        }
    }
    if at_most_one(b, vs) {
        assert forall|i: int, j: int| #![trigger vs[i], vs[j]] 0 <= i < j < vs.len() implies !(a(
            vs[i],
        ) && a(vs[j])) by {
            assert(!(b(vs[i]) && b(vs[j])));
        }
    }
    if vs.len() > 0 {
        assert(a(vs[0]) == b(vs[0]));
        assert forall|k: int| 0 <= k < vs.drop_first().len() implies a(
            #[trigger] vs.drop_first()[k],
        ) == b(vs.drop_first()[k]) by {
            assert(a(vs[k + 1]) == b(vs[k + 1]));
        }
        lemma_same_on(a, b, vs.drop_first());
    }
}

/// Assignments that agree on the variables of a table describe the same
/// table, and feed it in the same way.
pub proof fn lemma_same_cell(a: spec_fn(int) -> bool, b: spec_fn(int) -> bool, c: Cell)
    requires
        same_cell(a, b, c),
    ensures
        fed_in_order(a, c) == fed_in_order(b, c),
{
    lemma_same_on(a, b, c.sides[0]);
    lemma_same_on(a, b, c.sides[1]);
    lemma_same_on(a, b, c.sides[2]);
}

/// The clauses of the first `k` tables of a network speak of the variables
/// of these tables only.
pub proof fn lemma_cells_within(inputs: nat, k: nat)
    requires
        0 < inputs,
    ensures
        within(joined(k, cell_clauses_at(0, inputs)), cells_variables(inputs, k)),
{
    let part = cell_clauses_at(0, inputs);
    assert forall|i: int| 0 <= i < k implies within(
        #[trigger] part(i),
        cells_variables(inputs, k),
    ) by {
        lemma_cell_within(cells_variables(inputs, i as nat), (inputs + i) as nat);
        lemma_cells_variables_rise(inputs, (i + 1) as nat, k);
        lemma_within_more(
            part(i),
            cells_variables(inputs, i as nat) + cell_variables((inputs + i) as nat),
            cells_variables(inputs, k),
        );
    }
    lemma_within_joined(k, part, cells_variables(inputs, k));
}

/// An assignment that satisfies the clauses of the first `i` tables of a
/// network can be changed, on the variables of table `i`, so that it
/// satisfies the clauses of that table too and describes the table as `a`
/// does, if `a` feeds the table in order.
pub proof fn lemma_cell_added(
    a: spec_fn(int) -> bool,
    before: spec_fn(int) -> bool,
    inputs: nat,
    i: nat,
) -> (b: spec_fn(int) -> bool)
    requires
        0 < inputs,
        fed_in_order(a, cell_at(0, inputs, i as int)),
        satisfies(before, joined(i, cell_clauses_at(0, inputs))),
    ensures
        agree(before, b, cells_variables(inputs, i)),
        same_cell(a, b, cell_at(0, inputs, i as int)),
        satisfies(b, joined(i + 1, cell_clauses_at(0, inputs))),
{
    let base = cells_variables(inputs, i);
    let m = inputs + i;
    let c = cell(base, m);
    let part = cell_clauses_at(0, inputs);
    assert(c == cell_at(0, inputs, i as int));
    lemma_cells_within(inputs, i);
    // The table is described as `a` describes it.
    let described = copy_block(before, a, base, 3 * m + 8);
    assert(agree(before, described, base));
    lemma_agree_satisfies(before, described, base, joined(i, part));
    assert(same_cell(a, described, c));
    lemma_same_cell(a, described, c);
    // Its constraints are satisfied by values for their own variables.
    let b = lemma_cell_complete(described, base, m);
    lemma_agree_chain(described, b, b, base, base + 3 * m + 8);
    lemma_agree_satisfies(described, b, base, joined(i, part));
    lemma_agree_chain(before, described, b, base, base);
    lemma_same_below(a, described, b, c, base + 3 * m + 8);
    assert(part(i as int) == cell_clauses(base, m));
    lemma_satisfies_concat(b, joined(i, part), part(i as int));
    b
}

/// An assignment that feeds each of the first `k` tables of a network in
/// order can be changed, on the variables of these tables that do not
/// describe the network, so that it satisfies the clauses of the tables.
pub proof fn lemma_cells_complete(a: spec_fn(int) -> bool, inputs: nat, k: nat) -> (b: spec_fn(
    int,
) -> bool)
    requires
        0 < inputs,
        forall|i: int| 0 <= i < k ==> fed_in_order(a, #[trigger] cell_at(0, inputs, i)),
    ensures
        satisfies(b, joined(k, cell_clauses_at(0, inputs))),
        forall|i: int| 0 <= i < k ==> same_cell(a, b, #[trigger] cell_at(0, inputs, i)),
    decreases k,
{
    if k == 0 {
        a
    } else {
        let i = (k - 1) as nat;
        let before = lemma_cells_complete(a, inputs, i);
        assert(fed_in_order(a, cell_at(0, inputs, i as int)));
        let b = lemma_cell_added(a, before, inputs, i);
        assert forall|j: int| 0 <= j < k implies same_cell(
            a,
            b,
            #[trigger] cell_at(0, inputs, j),
        ) by {
            if j < i {
                lemma_cell_below(inputs, j, i);
                assert(same_cell(a, before, cell_at(0, inputs, j)));
                lemma_same_below(a, before, b, cell_at(0, inputs, j), cells_variables(inputs, i));
            }
        }
        b
    }
}

/// The variables of a table of a network come before those of the tables
/// after it.
pub proof fn lemma_cell_below(inputs: nat, j: int, i: nat)
    requires
        0 <= j < i,
    ensures
        variables_within(cell_at(0, inputs, j).sides[0], cells_variables(inputs, i)),
        variables_within(cell_at(0, inputs, j).sides[1], cells_variables(inputs, i)),
        variables_within(cell_at(0, inputs, j).sides[2], cells_variables(inputs, i)),
        variables_within(cell_at(0, inputs, j).table, cells_variables(inputs, i)),
{
    lemma_cells_variables_rise(inputs, (j + 1) as nat, i);
}

/// A table that two assignments describe alike is described in the same way
/// by every assignment that agrees with the second on the variables of the
/// table.
pub proof fn lemma_same_below(
    a: spec_fn(int) -> bool,
    b: spec_fn(int) -> bool,
    c: spec_fn(int) -> bool,
    t: Cell,
    n: nat,
)
    requires
        same_cell(a, b, t),
        agree(b, c, n) || (exists|m: nat| m >= n && agree(b, c, m)),
        variables_within(t.sides[0], n),
        variables_within(t.sides[1], n),
        variables_within(t.sides[2], n),
        variables_within(t.table, n),
    ensures
        same_cell(a, c, t),
{
    assert forall|v: int| 1 <= v <= n implies #[trigger] b(v) == c(v) by {
        if !agree(b, c, n) {
            let m = choose|m: nat| m >= n && agree(b, c, m);
            assert(b(v) == c(v));
        }
    }
    assert forall|k: int| 0 <= k < t.sides[0].len() implies a(#[trigger] t.sides[0][k]) == c(
        t.sides[0][k],
    ) by {
        assert(1 <= t.sides[0][k] <= n);
        assert(b(t.sides[0][k]) == c(t.sides[0][k]));
    }
    assert forall|k: int| 0 <= k < t.sides[1].len() implies a(#[trigger] t.sides[1][k]) == c(
        t.sides[1][k],
    ) by {
        assert(1 <= t.sides[1][k] <= n);
        assert(b(t.sides[1][k]) == c(t.sides[1][k]));
    }
    assert forall|k: int| 0 <= k < t.sides[2].len() implies a(#[trigger] t.sides[2][k]) == c(
        t.sides[2][k],
    ) by {
        assert(1 <= t.sides[2][k] <= n);
        assert(b(t.sides[2][k]) == c(t.sides[2][k]));
    }
    assert forall|k: int| 0 <= k < t.table.len() implies a(#[trigger] t.table[k]) == c(
        t.table[k],
    ) by {
        assert(1 <= t.table[k] <= n);
        assert(b(t.table[k]) == c(t.table[k]));
    }
}

/// Where the tables start that count for the rule of a signal: at the first
/// table for an input of the network, and after the table that puts the
/// signal out for an output.
pub open spec fn rule_start(inputs: nat, signal: int) -> int {
    if signal < inputs {
        0
    } else {
        signal - inputs + 1
    }
}

/// Under `a`, table `i` is fed by signal `signal` only if it, or one of the
/// tables before it that count, is fed by the signal before.
pub open spec fn in_order(
    a: spec_fn(int) -> bool,
    cells: Seq<Cell>,
    inputs: nat,
    i: int,
    signal: int,
) -> bool {
    used_between(a, cells, i, i + 1, signal) ==> used_between(
        a,
        cells,
        rule_start(inputs, signal),
        i + 1,
        signal - 1,
    )
}

/// Under `a`, the third side of table `i` is fed by a signal that is at most
/// the one of the third side of the next table.
pub open spec fn tail_in_order(a: spec_fn(int) -> bool, cells: Seq<Cell>, i: int) -> bool {
    value(a, cells[i].sides[2]) <= value(a, cells[i + 1].sides[2])
}

/// The assignment `a` describes a valid network with `inputs` inputs and `n`
/// tables: each side of each table is fed by exactly one signal, which is at
/// most the signal of the next side; the first and the last input feed some
/// table, and the last table is fed by the one before it; the third side of
/// each table is fed by a signal that is at most that of the third side of
/// the next table; the signals come into use in their order; and for every
/// excitation the last table puts out what the Game of Life asks for.
pub open spec fn valid(a: spec_fn(int) -> bool, inputs: nat, n: nat) -> bool {
    &&& forall|i: int| 0 <= i < n ==> fed_in_order(a, #[trigger] cell_at(0, inputs, i))
    &&& used(a, cells(0, inputs, n), 0)
    &&& used(a, cells(0, inputs, n), inputs - 1)
    &&& n > 1 ==> a(cell_at(0, inputs, n - 1).sides[2][inputs + n - 2])
    &&& forall|i: int| 0 <= i < n - 1 ==> #[trigger] tail_in_order(a, cells(0, inputs, n), i)
    &&& forall|i: int, signal: int|
        0 <= i < n && 2 <= signal < inputs + i && signal != inputs ==> #[trigger] in_order(
            a,
            cells(0, inputs, n),
            inputs,
            i,
            signal,
        )
    &&& forall|excitation: nat|
        excitation < pow2(inputs) ==> run(a, cells(0, inputs, n), inputs, excitation, n).last()
            == #[trigger] lives(excitation)
}

/// Every assignment that satisfies the formula of a network describes a
/// valid network.
pub proof fn lemma_generated_valid(a: spec_fn(int) -> bool, inputs: nat, n: nat)
    requires
        0 < inputs,
        0 < n,
        satisfies(a, generated(inputs, n).clauses),
    ensures
        valid(a, inputs, n),
{
    let net = cells(0, inputs, n);
    lemma_topology(a, inputs, n);
    lemma_satisfies_joined(a, n, cell_clauses_at(0, inputs));
    assert forall|i: int| 0 <= i < n implies fed_in_order(a, #[trigger] cell_at(0, inputs, i)) by {
        assert(satisfies(a, cell_clauses_at(0, inputs)(i)));
        lemma_cell_sound(a, cells_variables(inputs, i as nat), (inputs + i) as nat);
    }
    lemma_ends_used(a, inputs, n, 0);
    lemma_ends_used(a, inputs, n, inputs - 1);
    if n > 1 {
        lemma_last_fed(a, inputs, n);
        assert(net[n - 1] == cell_at(0, inputs, n - 1));
    }
    assert forall|i: int| 0 <= i < n - 1 implies #[trigger] tail_in_order(a, net, i) by {
        lemma_tails_ordered(a, inputs, n, i);
    }
    assert forall|i: int, signal: int|
        0 <= i < n && 2 <= signal < inputs + i && signal != inputs implies #[trigger] in_order(
        a,
        net,
        inputs,
        i,
        signal,
    ) by {
        if used_between(a, net, i, i + 1, signal) {
            lemma_in_order(a, inputs, n, i, signal);
        }
    }
    assert forall|excitation: nat| excitation < pow2(inputs) implies run(
        a,
        net,
        inputs,
        excitation,
        n,
    ).last() == #[trigger] lives(excitation) by {
        lemma_generated_sound(a, inputs, n, excitation);
    }
}

/// Assignments that describe the same network agree on which signals feed
/// which tables.
pub proof fn lemma_used_same(
    a: spec_fn(int) -> bool,
    b: spec_fn(int) -> bool,
    cells: Seq<Cell>,
    lo: int,
    hi: int,
    signal: int,
)
    requires
        0 <= lo,
        hi <= cells.len(),
        same_network(a, b, cells),
    ensures
        used_between(a, cells, lo, hi, signal) == used_between(b, cells, lo, hi, signal),
{
    if used_between(a, cells, lo, hi, signal) {
        let (i, side) = choose|i: int, side: int|
            lo <= i < hi && 0 <= side < 3 && 0 <= signal < cells[i].sides[side].len() && a(
                #[trigger] cells[i].sides[side][signal],
            );
        assert(same_cell(a, b, cells[i]));
        assert(same_on(a, b, cells[i].sides[side]));
        assert(b(cells[i].sides[side][signal]));
    }
    if used_between(b, cells, lo, hi, signal) {
        let (i, side) = choose|i: int, side: int|
            lo <= i < hi && 0 <= side < 3 && 0 <= signal < cells[i].sides[side].len() && b(
                #[trigger] cells[i].sides[side][signal],
            );
        assert(same_cell(a, b, cells[i]));
        assert(same_on(a, b, cells[i].sides[side]));
        assert(a(cells[i].sides[side][signal]));
    }
}

/// The rules of one table are satisfied by every assignment under which the
/// signals come into use in their order on that table.
pub proof fn lemma_order_complete(
    b: spec_fn(int) -> bool,
    inputs: nat,
    n: nat,
    i: int,
)
    requires
        0 < inputs,
        0 <= i < n,
        forall|signal: int|
            2 <= signal < inputs + i && signal != inputs ==> #[trigger] in_order(
                b,
                cells(0, inputs, n),
                inputs,
                i,
                signal,
            ),
    ensures
        satisfies(b, order_clauses_at(cells(0, inputs, n), inputs)(i)),
{
    let net = cells(0, inputs, n);
    let f = Formula {
        variables: cells_variables(inputs, n),
        clauses: Seq::empty(),
        names: Seq::empty(),
    };
    lemma_network(inputs, n, f);
    assert(net[i].wf() && net[i].width() == inputs + i);
    let first = input_rules_at(net, i);
    let second = output_rules_at(net, inputs, i);
    assert forall|k: int| 0 <= k < less(inputs, 2) implies satisfies(b, #[trigger] first(k)) by {
        let signal = k + 2;
        assert(in_order(b, net, inputs, i, signal));
        assert(reachable(net, 0, i + 1, signal - 1, f)) by {
            assert forall|l: int| 0 <= l < i + 1 implies (#[trigger] net[l]).wf() && 0 <= signal
                - 1 < net[l].width() && net[l].owned_by(f) by {}
        }
        lemma_rule(b, net, i, 0, signal, f);
    }
    assert forall|k: int| 0 <= k < less(i as nat, 1) implies satisfies(
        b,
        #[trigger] second(k),
    ) by {
        let signal = inputs + 1 + k;
        assert(in_order(b, net, inputs, i, signal));
        assert(reachable(net, k + 2, i + 1, signal - 1, f)) by {
            assert forall|l: int| k + 2 <= l < i + 1 implies (#[trigger] net[l]).wf() && 0
                <= signal - 1 < net[l].width() && net[l].owned_by(f) by {}
        }
        lemma_rule(b, net, i, k + 2, signal, f);
    }
    lemma_satisfies_joined(b, less(inputs, 2), first);
    lemma_satisfies_joined(b, less(i as nat, 1), second);
    lemma_satisfies_concat(
        b,
        joined(less(inputs, 2), first),
        joined(less(i as nat, 1), second),
    );
}

/// The clauses that ask for the first and the last input to be used, for the
/// last table to be fed by the one before it, and for the signals to come
/// into use in their order are satisfied by every assignment that describes
/// a valid network.
pub proof fn lemma_pruning_complete(
    a: spec_fn(int) -> bool,
    b: spec_fn(int) -> bool,
    inputs: nat,
    n: nat,
)
    requires
        0 < inputs,
        0 < n,
        valid(a, inputs, n),
        same_network(a, b, cells(0, inputs, n)),
    ensures
        satisfies(b, seq![uses(cells(0, inputs, n), 0)]),
        satisfies(b, seq![uses(cells(0, inputs, n), inputs - 1)]),
        satisfies(b, last_uses_previous(cells(0, inputs, n), inputs)),
        satisfies(b, joined(n, order_clauses_at(cells(0, inputs, n), inputs))),
{
    let net = cells(0, inputs, n);
    let f = Formula {
        variables: cells_variables(inputs, n),
        clauses: Seq::empty(),
        names: Seq::empty(),
    };
    lemma_network(inputs, n, f);
    // The first and the last input.
    lemma_used_same(a, b, net, 0, n as int, 0);
    lemma_used_same(a, b, net, 0, n as int, inputs - 1);
    assert(reachable(net, 0, n as int, 0, f)) by {
        assert forall|l: int| 0 <= l < n implies (#[trigger] net[l]).wf() && 0 <= 0int
            < net[l].width() && net[l].owned_by(f) by {}
    }
    assert(reachable(net, 0, n as int, inputs - 1, f)) by {
        assert forall|l: int| 0 <= l < n implies (#[trigger] net[l]).wf() && 0 <= inputs - 1
            < net[l].width() && net[l].owned_by(f) by {}
    }
    lemma_uses(b, net, 0, f);
    lemma_uses(b, net, inputs - 1, f);
    lemma_satisfies_1(b, uses(net, 0));
    lemma_satisfies_1(b, uses(net, inputs - 1));
    // The last table.
    if n > 1 {
        let last = cell_at(0, inputs, n - 1);
        assert(net.last() == last);
        assert(net[n - 1] == last);
        assert(last.wf() && last.width() == inputs + n - 1 && last.owned_by(f));
        assert(same_cell(a, b, net[n - 1]));
        assert(b(last.sides[2][inputs + n - 2]));
        assert(1 <= last.sides[2][inputs + n - 2]);
        lemma_clause_1(b, last.sides[2][inputs + n - 2]);
        lemma_satisfies_1(b, seq![last.sides[2][inputs + n - 2]]);
    }
    // The order of the signals.
    let part = order_clauses_at(net, inputs);
    assert forall|i: int| 0 <= i < n implies satisfies(b, #[trigger] part(i)) by {
        assert forall|signal: int|
            2 <= signal < inputs + i && signal != inputs implies #[trigger] in_order(
            b,
            net,
            inputs,
            i,
            signal,
        ) by {
            assert(in_order(a, net, inputs, i, signal));
            lemma_used_same(a, b, net, i, i + 1, signal);
            lemma_used_same(a, b, net, rule_start(inputs, signal), i + 1, signal - 1);
        }
        lemma_order_complete(b, inputs, n, i);
    }
    lemma_satisfies_joined(b, n, part);
}

/// The clauses that order the first `k` pairs of neighbouring tables speak
/// of the variables of the tables and of their own only.
pub proof fn lemma_tails_within(inputs: nat, n: nat, k: nat)
    requires
        0 < inputs,
        k < n,
    ensures
        within(
            joined(k, tail_clauses_at(cells_variables(inputs, n), cells(0, inputs, n), inputs)),
            cells_variables(inputs, n) + tails_variables(inputs, k),
        ),
{
    let net = cells(0, inputs, n);
    let tables = cells_variables(inputs, n);
    let part = tail_clauses_at(tables, net, inputs);
    let f = Formula { variables: tables, clauses: Seq::empty(), names: Seq::empty() };
    lemma_network(inputs, n, f);
    assert forall|i: int| 0 <= i < k implies within(
        #[trigger] part(i),
        tables + tails_variables(inputs, k),
    ) by {
        let base = tables + tails_variables(inputs, i as nat);
        let g = Formula { variables: base, clauses: Seq::empty(), names: Seq::empty() };
        assert(net[i].wf() && net[i].owned_by(f) && net[i].width() == inputs + i);
        assert(net[i + 1].wf() && net[i + 1].owned_by(f) && net[i + 1].width() == inputs + i + 1);
        f.lemma_owns_all_more(g, net[i].sides[2]);
        f.lemma_owns_all_more(g, net[i + 1].sides[2]);
        lemma_comparison_clauses_within(base, net[i].sides[2], net[i + 1].sides[2]);
        lemma_tails_variables_rise(inputs, (i + 1) as nat, k);
        lemma_within_more(
            part(i),
            base + comparator_variables((inputs + i) as nat, (inputs + i + 1) as nat),
            tables + tails_variables(inputs, k),
        );
    }
    lemma_within_joined(k, part, tables + tails_variables(inputs, k));
}

/// An assignment under which the third side of each of the first `k` tables
/// is fed by a signal that is at most that of the third side of the next
/// table can be given values for the variables of the
/// comparisons so that it satisfies the clauses that order the first `k`
/// pairs of neighbouring tables. The result differs from `b` on no variable
/// of the tables.
pub proof fn lemma_tails_complete(b: spec_fn(int) -> bool, inputs: nat, n: nat, k: nat) -> (c:
    spec_fn(int) -> bool)
    requires
        0 < inputs,
        k < n,
        forall|i: int| 0 <= i < k ==> #[trigger] tail_in_order(b, cells(0, inputs, n), i),
    ensures
        agree(b, c, cells_variables(inputs, n)),
        satisfies(
            c,
            joined(k, tail_clauses_at(cells_variables(inputs, n), cells(0, inputs, n), inputs)),
        ),
    decreases k,
{
    let net = cells(0, inputs, n);
    let tables = cells_variables(inputs, n);
    let part = tail_clauses_at(tables, net, inputs);
    if k == 0 {
        b
    } else {
        let i = (k - 1) as int;
        let before = lemma_tails_complete(b, inputs, n, i as nat);
        lemma_tails_within(inputs, n, i as nat);
        let base = tables + tails_variables(inputs, i as nat);
        let f = Formula { variables: tables, clauses: Seq::empty(), names: Seq::empty() };
        let g = Formula { variables: base, clauses: Seq::empty(), names: Seq::empty() };
        lemma_network(inputs, n, f);
        let lhs = net[i].sides[2];
        let rhs = net[i + 1].sides[2];
        assert(net[i].wf() && net[i].owned_by(f) && net[i].width() == inputs + i);
        assert(net[i + 1].wf() && net[i + 1].owned_by(f) && net[i + 1].width() == inputs + i + 1);
        f.lemma_owns_all_more(g, lhs);
        f.lemma_owns_all_more(g, rhs);
        assert(tail_in_order(b, net, i));
        lemma_value_agree(b, before, tables, lhs);
        lemma_value_agree(b, before, tables, rhs);
        lemma_less_than_equal_complete(before, base, lhs, rhs);
        let c = compared(before, base, lhs, rhs);
        lemma_agree_satisfies(before, c, base, joined(i as nat, part));
        lemma_agree_chain(b, before, c, tables, base);
        assert(part(i) == less_than_equal_clauses(base, lhs, rhs));
        c
    }
}

/// The values that the variables of an excitation have in the network that
/// `a` describes: the values of the signals, and then, for each table, the
/// values of the signals that feed its three sides.
pub open spec fn block_values(
    a: spec_fn(int) -> bool,
    cells: Seq<Cell>,
    inputs: nat,
    excitation: nat,
) -> Seq<bool> {
    Seq::new(
        excitation_variables(inputs, cells.len()),
        |j: int|
            if j < inputs + cells.len() {
                run(a, cells, inputs, excitation, cells.len())[j]
            } else {
                run(a, cells, inputs, excitation, cells.len())[source(
                    a,
                    cells[(j - inputs - cells.len()) / 3],
                    (j - inputs - cells.len()) % 3,
                )]
            },
    )
}

/// The assignment that gives the variables after the first `base` the values
/// `values`, and is `b` elsewhere.
pub open spec fn set_block(b: spec_fn(int) -> bool, base: nat, values: Seq<bool>) -> spec_fn(
    int,
) -> bool {
    |v: int|
        if base < v <= base + values.len() {
            values[v - base - 1]
        } else {
            b(v)
        }
}

/// The first signals keep their values when more tables work.
pub proof fn lemma_run_prefix(
    a: spec_fn(int) -> bool,
    cells: Seq<Cell>,
    inputs: nat,
    excitation: nat,
    k: nat,
    n: nat,
    j: int,
)
    requires
        k <= n,
        0 <= j < inputs + k,
    ensures
        run(a, cells, inputs, excitation, n)[j] == run(a, cells, inputs, excitation, k)[j],
    decreases n,
{
    if k < n {
        lemma_run_prefix(a, cells, inputs, excitation, k, (n - 1) as nat, j);
        lemma_run_len(a, cells, inputs, excitation, (n - 1) as nat);
    }
}

/// Under an assignment that feeds a side by exactly one signal, the side is
/// fed by its source and by no other signal.
pub proof fn lemma_source(a: spec_fn(int) -> bool, c: Cell, side: int)
    requires
        exactly_one(a, c.sides[side]),
    ensures
        0 <= source(a, c, side) < c.sides[side].len(),
        a(c.sides[side][source(a, c, side)]),
        forall|j: int|
            0 <= j < c.sides[side].len() && a(#[trigger] c.sides[side][j]) ==> j == source(
                a,
                c,
                side,
            ),
{
    let vs = c.sides[side];
    let s = source(a, c, side);
    assert forall|j: int| 0 <= j < vs.len() && a(#[trigger] vs[j]) implies j == s by {
        if j < s {
            assert(!(a(vs[j]) && a(vs[s])));
        }
        if s < j {
            assert(!(a(vs[s]) && a(vs[j])));
        }
    }
}

/// The assignment `c` gives the variables of an excitation the values that
/// they have in the network that `a` describes, and describes the same
/// network.
pub open spec fn excited(
    c: spec_fn(int) -> bool,
    a: spec_fn(int) -> bool,
    base: nat,
    cells: Seq<Cell>,
    inputs: nat,
    excitation: nat,
) -> bool {
    &&& same_network(a, c, cells)
    &&& forall|j: int|
        0 <= j < inputs + cells.len() ==> c(#[trigger] signals(base, cells, inputs)[j]) == run(
            a,
            cells,
            inputs,
            excitation,
            cells.len(),
        )[j]
    &&& forall|i: int, side: int|
        0 <= i < cells.len() && 0 <= side < 3 ==> c(
            #[trigger] inputs_of(base, cells, inputs, i)[side],
        ) == run(a, cells, inputs, excitation, cells.len())[source(a, cells[i], side)]
}

/// An assignment that is given the values of `block_values` on the variables
/// of an excitation gives them the values that they have in the network, and
/// describes the network as before.
pub proof fn lemma_set_block(
    a: spec_fn(int) -> bool,
    b: spec_fn(int) -> bool,
    f: Formula,
    base: nat,
    cells: Seq<Cell>,
    inputs: nat,
    excitation: nat,
)
    requires
        f.variables <= base,
        network(cells, inputs, f),
        same_network(a, b, cells),
    ensures
        agree(b, set_block(b, base, block_values(a, cells, inputs, excitation)), base),
        excited(
            set_block(b, base, block_values(a, cells, inputs, excitation)),
            a,
            base,
            cells,
            inputs,
            excitation,
        ),
{
    let values = block_values(a, cells, inputs, excitation);
    let c = set_block(b, base, values);
    let n = cells.len();
    assert forall|i: int| 0 <= i < n implies same_cell(a, c, #[trigger] cells[i]) by {
        let t = cells[i];
        assert(t.wf() && t.owned_by(f) && same_cell(a, b, t));
        assert(agree(b, c, base));
        let g = Formula { variables: base, clauses: f.clauses, names: f.names };
        f.lemma_owns_all_more(g, t.sides[0]);
        f.lemma_owns_all_more(g, t.sides[1]);
        f.lemma_owns_all_more(g, t.sides[2]);
        f.lemma_owns_all_more(g, t.table);
        lemma_same_below(a, b, c, t, base);
    }
    assert forall|j: int| 0 <= j < inputs + n implies c(
        #[trigger] signals(base, cells, inputs)[j],
    ) == run(a, cells, inputs, excitation, n)[j] by {
        assert(signals(base, cells, inputs)[j] == base + 1 + j);
    }
    assert forall|i: int, side: int| 0 <= i < n && 0 <= side < 3 implies c(
        #[trigger] inputs_of(base, cells, inputs, i)[side],
    ) == run(a, cells, inputs, excitation, n)[source(a, cells[i], side)] by {
        let v = inputs_of(base, cells, inputs, i)[side];
        let j = inputs + n + 3 * i + side;
        assert(v == base + 1 + j);
        assert((j - inputs - n) / 3 == i && (j - inputs - n) % 3 == side);
        assert(c(v) == values[j]);
    }
}

/// Under an assignment that gives the variables of an excitation the values
/// that they have in the network, the clauses that wire a table into the
/// excitation are satisfied.
pub proof fn lemma_wiring_complete(
    c: spec_fn(int) -> bool,
    a: spec_fn(int) -> bool,
    f: Formula,
    base: nat,
    cells: Seq<Cell>,
    inputs: nat,
    excitation: nat,
    i: int,
)
    requires
        0 <= i < cells.len(),
        f.variables <= base,
        network(cells, inputs, f),
        excited(c, a, base, cells, inputs, excitation),
        exactly_one(a, cells[i].sides[0]),
        exactly_one(a, cells[i].sides[1]),
        exactly_one(a, cells[i].sides[2]),
    ensures
        satisfies(c, wiring_at(base, cells, inputs)(i)),
{
    let n = cells.len();
    let t = cells[i];
    let state = signals(base, cells, inputs);
    let ins = inputs_of(base, cells, inputs, i);
    let top = base + excitation_variables(inputs, n);
    let whole = run(a, cells, inputs, excitation, n);
    let before = run(a, cells, inputs, excitation, i as nat);
    assert(t.wf() && t.width() == inputs + i && t.owned_by(f) && same_cell(a, c, t));
    let g = Formula { variables: top, clauses: f.clauses, names: f.names };
    f.lemma_owns_all_more(g, t.sides[0]);
    f.lemma_owns_all_more(g, t.sides[1]);
    f.lemma_owns_all_more(g, t.sides[2]);
    f.lemma_owns_all_more(g, t.table);
    assert(variables_within(state, top));
    assert(variables_within(ins, top));
    lemma_source(a, t, 0);
    lemma_source(a, t, 1);
    lemma_source(a, t, 2);
    let s0 = source(a, t, 0);
    let s1 = source(a, t, 1);
    let s2 = source(a, t, 2);
    lemma_run_prefix(a, cells, inputs, excitation, i as nat, n, s0);
    lemma_run_prefix(a, cells, inputs, excitation, i as nat, n, s1);
    lemma_run_prefix(a, cells, inputs, excitation, i as nat, n, s2);
    lemma_run_prefix(a, cells, inputs, excitation, (i + 1) as nat, n, inputs + i);
    lemma_run_len(a, cells, inputs, excitation, i as nat);
    // The inputs of the table have the values of the signals that feed it.
    assert(c(ins[0]) == whole[s0] && c(ins[1]) == whole[s1] && c(ins[2]) == whole[s2]);
    assert(c(state[s0]) == whole[s0] && c(state[s1]) == whole[s1] && c(state[s2]) == whole[s2]);
    assert forall|side: int| 0 <= side < 3 implies connected(
        c,
        #[trigger] t.sides[side],
        ins[side],
        state,
    ) by {
        assert(same_on(a, c, t.sides[side]));
        assert forall|j: int| 0 <= j < reach(t.sides[side].len(), state.len()) && c(
            #[trigger] t.sides[side][j],
        ) implies c(ins[side]) == c(state[j]) by {
            assert(a(t.sides[side][j]));
            assert(j == source(a, t, side));
        }
    }
    lemma_connections(c, t, ins, state, top);
    // The output of the table is the entry that its inputs spell.
    let entry = bit_value(before[s0]) + 2 * bit_value(before[s1]) + 4 * bit_value(before[s2]);
    assert(spelled(c, ins) == entry);
    assert(c(state[inputs + i]) == whole[inputs + i]);
    assert(whole[inputs + i] == output_of(a, t, before));
    assert(same_on(a, c, t.table));
    assert(c(t.table[entry]) == a(t.table[entry]));
    assert(1 <= state[inputs + i]);
    lemma_output(c, t.table, ins, state[inputs + i], top);
    lemma_satisfies_concat(
        c,
        output_clauses(t.table, ins, state[inputs + i]),
        connection_clauses(t, ins, state),
    );
}

/// Under `a`, each side of each table is fed by exactly one signal.
pub open spec fn fed_once(a: spec_fn(int) -> bool, cells: Seq<Cell>) -> bool {
    forall|i: int, side: int|
        0 <= i < cells.len() && 0 <= side < 3 ==> exactly_one(a, #[trigger] cells[i].sides[side])
}

/// Under an assignment that gives the variables of an excitation the values
/// that they have in a network whose last table puts out what the Game of
/// Life asks for, the clauses of the excitation are satisfied.
pub proof fn lemma_excitation_complete(
    c: spec_fn(int) -> bool,
    a: spec_fn(int) -> bool,
    f: Formula,
    base: nat,
    cells: Seq<Cell>,
    inputs: nat,
    excitation: nat,
)
    requires
        0 < inputs,
        0 < cells.len(),
        f.variables <= base,
        network(cells, inputs, f),
        fed_once(a, cells),
        excited(c, a, base, cells, inputs, excitation),
        run(a, cells, inputs, excitation, cells.len()).last() == lives(excitation),
    ensures
        satisfies(c, excitation_clauses(base, cells, inputs, excitation)),
{
    reveal(excitation_clauses);
    let n = cells.len();
    let state = signals(base, cells, inputs);
    let whole = run(a, cells, inputs, excitation, n);
    let pinned = pins(state, inputs, excitation);
    let literal = if lives(excitation) {
        state.last()
    } else {
        -state.last()
    };
    let part = wiring_at(base, cells, inputs);
    lemma_run_len(a, cells, inputs, excitation, n);
    // The inputs have the values of their digits.
    assert forall|k: int| 0 <= k < pinned.len() implies clause_holds(c, #[trigger] pinned[k]) by {
        lemma_run_prefix(a, cells, inputs, excitation, 0, n, k);
        assert(c(state[k]) == whole[k]);
        assert(1 <= state[k]);
        lemma_clause_1(c, state[k]);
        lemma_clause_1(c, -state[k]);
    }
    // The last table puts out what is asked for.
    assert(c(state[inputs + n - 1]) == whole[inputs + n - 1]);
    assert(state.last() == state[inputs + n - 1]);
    assert(1 <= state.last());
    lemma_clause_1(c, literal);
    lemma_satisfies_1(c, seq![literal]);
    // Each table is wired in.
    assert forall|i: int| 0 <= i < n implies satisfies(c, #[trigger] part(i)) by {
        assert(exactly_one(a, cells[i].sides[0]));
        assert(exactly_one(a, cells[i].sides[1]));
        assert(exactly_one(a, cells[i].sides[2]));
        lemma_wiring_complete(c, a, f, base, cells, inputs, excitation, i);
    }
    lemma_satisfies_joined(c, n, part);
    lemma_satisfies_concat(c, pinned, seq![seq![literal]]);
    lemma_satisfies_concat(c, pinned + seq![seq![literal]], joined(n, part));
}

/// The clauses of an excitation speak of the variables of the tables and of
/// the excitation only.
pub proof fn lemma_excitation_within(
    f: Formula,
    base: nat,
    cells: Seq<Cell>,
    inputs: nat,
    excitation: nat,
)
    requires
        0 < inputs,
        0 < cells.len(),
        f.variables <= base,
        network(cells, inputs, f),
    ensures
        within(
            excitation_clauses(base, cells, inputs, excitation),
            base + excitation_variables(inputs, cells.len()),
        ),
{
    reveal(excitation_clauses);
    let n = cells.len();
    let top = base + excitation_variables(inputs, n);
    let state = signals(base, cells, inputs);
    let pinned = pins(state, inputs, excitation);
    let literal = if lives(excitation) {
        state.last()
    } else {
        -state.last()
    };
    let part = wiring_at(base, cells, inputs);
    assert(variables_within(state, top));
    assert forall|k: int| 0 <= k < pinned.len() implies clause_within(
        #[trigger] pinned[k],
        top,
    ) by {
        assert(1 <= state[k] <= top);
    }
    assert(1 <= state[inputs + n - 1] <= top);
    assert(within(seq![seq![literal]], top));
    assert forall|i: int| 0 <= i < n implies within(#[trigger] part(i), top) by {
        let t = cells[i];
        let ins = inputs_of(base, cells, inputs, i);
        assert(t.wf() && t.owned_by(f));
        let g = Formula { variables: top, clauses: f.clauses, names: f.names };
        f.lemma_owns_all_more(g, t.sides[0]);
        f.lemma_owns_all_more(g, t.sides[1]);
        f.lemma_owns_all_more(g, t.sides[2]);
        f.lemma_owns_all_more(g, t.table);
        assert(variables_within(ins, top));
        assert(1 <= state[inputs + i] <= top);
        lemma_wiring_within(t, ins, state, state[inputs + i], top);
        lemma_within_concat(
            output_clauses(t.table, ins, state[inputs + i]),
            connection_clauses(t, ins, state),
            top,
        );
    }
    lemma_within_joined(n, part, top);
    lemma_within_concat(pinned, seq![seq![literal]], top);
    lemma_within_concat(pinned + seq![seq![literal]], joined(n, part), top);
}

/// The clauses of the first `k` excitations speak of the variables of the
/// tables and of these excitations only.
pub proof fn lemma_excitations_within(
    f: Formula,
    base: nat,
    cells: Seq<Cell>,
    inputs: nat,
    k: nat,
)
    requires
        0 < inputs,
        0 < cells.len(),
        f.variables <= base,
        network(cells, inputs, f),
    ensures
        within(
            joined(k, excitation_clauses_at(base, cells, inputs)),
            base + k * excitation_variables(inputs, cells.len()),
        ),
{
    let per = excitation_variables(inputs, cells.len());
    let part = excitation_clauses_at(base, cells, inputs);
    assert forall|e: int| 0 <= e < k implies within(#[trigger] part(e), base + k * per) by {
        assert(0 <= e * per && e * per + per <= k * per) by (nonlinear_arith)
            requires
                0 <= e < k,
                0 <= per,
        ;
        lemma_excitation_within(f, (base + e * per) as nat, cells, inputs, e as nat);
        lemma_within_more(part(e), (base + e * per + per) as nat, base + k * per);
    }
    lemma_within_joined(k, part, base + k * per);
}

/// An assignment that describes a network whose last table puts out what
/// the Game of Life asks for, for each of the first `k` excitations, can be
/// given values for the variables of these excitations so that it satisfies
/// their clauses. The result differs from `b` on no variable of the first
/// `base`.
pub proof fn lemma_excitations_complete(
    a: spec_fn(int) -> bool,
    b: spec_fn(int) -> bool,
    f: Formula,
    base: nat,
    cells: Seq<Cell>,
    inputs: nat,
    k: nat,
) -> (c: spec_fn(int) -> bool)
    requires
        0 < inputs,
        0 < cells.len(),
        f.variables <= base,
        network(cells, inputs, f),
        fed_once(a, cells),
        same_network(a, b, cells),
        forall|e: nat|
            e < k ==> run(a, cells, inputs, e, cells.len()).last() == #[trigger] lives(e),
    ensures
        agree(b, c, base),
        same_network(a, c, cells),
        satisfies(c, joined(k, excitation_clauses_at(base, cells, inputs))),
    decreases k,
{
    if k == 0 {
        b
    } else {
        let e = (k - 1) as nat;
        let per = excitation_variables(inputs, cells.len());
        let part = excitation_clauses_at(base, cells, inputs);
        let before = lemma_excitations_complete(a, b, f, base, cells, inputs, e);
        lemma_excitations_within(f, base, cells, inputs, e);
        assert(0 <= e * per) by (nonlinear_arith)
            requires
                0 <= e,
                0 <= per,
        ;
        let from = (base + e * per) as nat;
        let c = set_block(before, from, block_values(a, cells, inputs, e));
        lemma_set_block(a, before, f, from, cells, inputs, e);
        assert(run(a, cells, inputs, e, cells.len()).last() == lives(e));
        lemma_excitation_complete(c, a, f, from, cells, inputs, e);
        lemma_agree_satisfies(before, c, from, joined(e, part));
        lemma_agree_chain(b, before, c, base, from);
        assert(part(e as int) == excitation_clauses(from, cells, inputs, e));
        c
    }
}

/// A list of variables within some number is a clause within that number.
pub proof fn lemma_clause_of_variables(vs: Seq<int>, n: nat)
    requires
        variables_within(vs, n),
    ensures
        clause_within(vs, n),
{
    assert forall|k: int| 0 <= k < vs.len() implies 1 <= #[trigger] vs[k] <= n || 1 <= -vs[k]
        <= n by {
        assert(1 <= vs[k] <= n);
    }
}

/// The clauses of a network that do not depend on an excitation speak of the
/// variables of the tables and of the comparisons between them only.
pub proof fn lemma_topology_within(inputs: nat, n: nat)
    requires
        0 < inputs,
        0 < n,
    ensures
        within(
            topology_clauses(inputs, n),
            cells_variables(inputs, n) + tails_variables(inputs, less(n, 1)),
        ),
{
    reveal(topology_clauses);
    let net = cells(0, inputs, n);
    let tables = cells_variables(inputs, n);
    let top = tables + tails_variables(inputs, less(n, 1));
    let f = Formula { variables: tables, clauses: Seq::empty(), names: Seq::empty() };
    lemma_network(inputs, n, f);
    let made = joined(n, cell_clauses_at(0, inputs));
    let used_0 = seq![uses(net, 0)];
    let used_1 = seq![uses(net, inputs - 1)];
    let last = last_uses_previous(net, inputs);
    let tails = joined(less(n, 1), tail_clauses_at(tables, net, inputs));
    let order = joined(n, order_clauses_at(net, inputs));
    lemma_cells_within(inputs, n);
    lemma_within_more(made, tables, top);
    lemma_tails_within(inputs, n, less(n, 1));
    // The clauses on the use of the first and of the last input.
    assert(within(used_0, top) && within(used_1, top)) by {
        lemma_uses_within(inputs, n, 0);
        lemma_uses_within(inputs, n, inputs - 1);
        lemma_within_more(used_0, tables, top);
        lemma_within_more(used_1, tables, top);
    }
    assert(within(last, top)) by {
        if n > 1 {
            let t = net[n - 1];
            assert(t.wf() && t.width() == inputs + n - 1 && t.owned_by(f));
            assert(net.last() == t);
            assert(1 <= t.sides[2][inputs + n - 2] <= tables);
        }
    }
    // The clauses on the order of the signals.
    assert forall|i: int| 0 <= i < n implies within(
        #[trigger] order_clauses_at(net, inputs)(i),
        top,
    ) by {
        lemma_order_within(inputs, n, i);
        lemma_within_more(order_clauses_at(net, inputs)(i), tables, top);
    }
    lemma_within_joined(n, order_clauses_at(net, inputs), top);
    lemma_within_concat(made, used_0, top);
    lemma_within_concat(made + used_0, used_1, top);
    lemma_within_concat(made + used_0 + used_1, last, top);
    lemma_within_concat(made + used_0 + used_1 + last, tails, top);
    lemma_within_concat(made + used_0 + used_1 + last + tails, order, top);
}

/// The clause on the use of a signal speaks of the variables of the tables
/// only.
pub proof fn lemma_uses_within(inputs: nat, n: nat, signal: int)
    requires
        0 < inputs,
        0 <= signal < inputs,
    ensures
        within(seq![uses(cells(0, inputs, n), signal)], cells_variables(inputs, n)),
{
    let net = cells(0, inputs, n);
    let f = Formula {
        variables: cells_variables(inputs, n),
        clauses: Seq::empty(),
        names: Seq::empty(),
    };
    lemma_network(inputs, n, f);
    assert(reachable(net, 0, n as int, signal, f)) by {
        assert forall|l: int| 0 <= l < n implies (#[trigger] net[l]).wf() && 0 <= signal
            < net[l].width() && net[l].owned_by(f) by {}
    }
    let a = |v: int| true;
    lemma_sources(a, net, 0, n as int, signal, f);
    assert(uses(net, signal) =~= sources(net, 0, n as int, signal)) by {
        assert(net.len() * 3 == 3 * net.len()) by (nonlinear_arith);
    }
    lemma_clause_of_variables(uses(net, signal), cells_variables(inputs, n));
}

/// The rules of a table speak of the variables of the tables only.
pub proof fn lemma_order_within(inputs: nat, n: nat, i: int)
    requires
        0 < inputs,
        0 <= i < n,
    ensures
        within(order_clauses_at(cells(0, inputs, n), inputs)(i), cells_variables(inputs, n)),
{
    let net = cells(0, inputs, n);
    let tables = cells_variables(inputs, n);
    let f = Formula { variables: tables, clauses: Seq::empty(), names: Seq::empty() };
    lemma_network(inputs, n, f);
    let first = input_rules_at(net, i);
    let second = output_rules_at(net, inputs, i);
    let a = |v: int| true;
    assert(net[i].wf() && net[i].width() == inputs + i && net[i].owned_by(f));
    assert forall|k: int| 0 <= k < less(inputs, 2) implies within(#[trigger] first(k), tables) by {
        let signal = k + 2;
        assert(reachable(net, 0, i + 1, signal - 1, f)) by {
            assert forall|l: int| 0 <= l < i + 1 implies (#[trigger] net[l]).wf() && 0 <= signal
                - 1 < net[l].width() && net[l].owned_by(f) by {}
        }
        lemma_sources(a, net, 0, i + 1, signal - 1, f);
        lemma_rule_within(net, i, 0, signal, tables);
    }
    assert forall|k: int| 0 <= k < less(i as nat, 1) implies within(
        #[trigger] second(k),
        tables,
    ) by {
        let signal = inputs + 1 + k;
        assert(reachable(net, k + 2, i + 1, signal - 1, f)) by {
            assert forall|l: int| k + 2 <= l < i + 1 implies (#[trigger] net[l]).wf() && 0
                <= signal - 1 < net[l].width() && net[l].owned_by(f) by {}
        }
        lemma_sources(a, net, k + 2, i + 1, signal - 1, f);
        lemma_rule_within(net, i, k + 2, signal, tables);
    }
    lemma_within_joined(less(inputs, 2), first, tables);
    lemma_within_joined(less(i as nat, 1), second, tables);
    lemma_within_concat(
        joined(less(inputs, 2), first),
        joined(less(i as nat, 1), second),
        tables,
    );
}

/// The clauses of a rule speak of the choices that they are made of only.
pub proof fn lemma_rule_within(cells: Seq<Cell>, instruction: int, lo: int, signal: int, n: nat)
    requires
        0 <= instruction < cells.len(),
        cells[instruction].wf(),
        0 <= signal < cells[instruction].width(),
        variables_within(cells[instruction].sides[0], n),
        variables_within(cells[instruction].sides[1], n),
        variables_within(cells[instruction].sides[2], n),
        variables_within(sources(cells, lo, instruction + 1, signal - 1), n),
    ensures
        within(rule(cells, instruction, lo, signal), n),
{
    let r = rule(cells, instruction, lo, signal);
    let before = sources(cells, lo, instruction + 1, signal - 1);
    assert forall|side: int| 0 <= side < r.len() implies clause_within(#[trigger] r[side], n) by {
        let last = -cells[instruction].sides[side][signal];
        assert(1 <= cells[instruction].sides[side][signal] <= n);
        let c = before.push(last);
        assert forall|k: int| 0 <= k < c.len() implies 1 <= #[trigger] c[k] <= n || 1 <= -c[k]
            <= n by {
            if k < before.len() {
                assert(1 <= before[k] <= n);
            }
        }
    }
}

/// An assignment that describes a valid network satisfies the clauses of
/// the network that do not depend on an excitation, once the other variables
/// of the tables and of the comparisons between them have their values.
pub proof fn lemma_topology_complete(a: spec_fn(int) -> bool, inputs: nat, n: nat) -> (b: spec_fn(
    int,
) -> bool)
    requires
        0 < inputs,
        0 < n,
        valid(a, inputs, n),
    ensures
        same_network(a, b, cells(0, inputs, n)),
        satisfies(b, topology_clauses(inputs, n)),
{
    reveal(topology_clauses);
    let net = cells(0, inputs, n);
    let tables = cells_variables(inputs, n);
    let f = Formula { variables: tables, clauses: Seq::empty(), names: Seq::empty() };
    lemma_network(inputs, n, f);
    let made = joined(n, cell_clauses_at(0, inputs));
    let used_0 = seq![uses(net, 0)];
    let used_1 = seq![uses(net, inputs - 1)];
    let last = last_uses_previous(net, inputs);
    let tails = joined(less(n, 1), tail_clauses_at(tables, net, inputs));
    let order = joined(n, order_clauses_at(net, inputs));
    // The tables.
    let b1 = lemma_cells_complete(a, inputs, n);
    assert(same_network(a, b1, net)) by {
        assert forall|i: int| 0 <= i < n implies same_cell(a, b1, #[trigger] net[i]) by {
            assert(same_cell(a, b1, cell_at(0, inputs, i)));
        }
    }
    // The order of the third sides.
    assert forall|i: int| 0 <= i < n - 1 implies #[trigger] tail_in_order(b1, net, i) by {
        assert(tail_in_order(a, net, i));
        assert(same_cell(a, b1, net[i]) && same_cell(a, b1, net[i + 1]));
        lemma_same_on(a, b1, net[i].sides[2]);
        lemma_same_on(a, b1, net[i + 1].sides[2]);
    }
    let b = lemma_tails_complete(b1, inputs, n, less(n, 1));
    lemma_cells_within(inputs, n);
    lemma_agree_satisfies(b1, b, tables, made);
    assert(same_network(a, b, net)) by {
        assert forall|i: int| 0 <= i < n implies same_cell(a, b, #[trigger] net[i]) by {
            assert(net[i].wf() && net[i].owned_by(f) && same_cell(a, b1, net[i]));
            lemma_same_below(a, b1, b, net[i], tables);
        }
    }
    // The use of the signals, and their order.
    lemma_pruning_complete(a, b, inputs, n);
    lemma_satisfies_concat(b, made, used_0);
    lemma_satisfies_concat(b, made + used_0, used_1);
    lemma_satisfies_concat(b, made + used_0 + used_1, last);
    lemma_satisfies_concat(b, made + used_0 + used_1 + last, tails);
    lemma_satisfies_concat(b, made + used_0 + used_1 + last + tails, order);
    b
}

/// Every valid network is described by an assignment that satisfies the
/// formula of the network: an assignment that describes a valid network can
/// be changed, on the variables that do not describe the network, so that
/// it satisfies the formula.
pub proof fn lemma_valid_generated(a: spec_fn(int) -> bool, inputs: nat, n: nat) -> (b: spec_fn(
    int,
) -> bool)
    requires
        0 < inputs,
        0 < n,
        valid(a, inputs, n),
    ensures
        same_network(a, b, cells(0, inputs, n)),
        satisfies(b, generated(inputs, n).clauses),
{
    reveal(generated);
    let net = cells(0, inputs, n);
    let tables = cells_variables(inputs, n);
    let base = tables + tails_variables(inputs, less(n, 1));
    let f = Formula { variables: tables, clauses: Seq::empty(), names: Seq::empty() };
    lemma_network(inputs, n, f);
    let fixed = lemma_topology_complete(a, inputs, n);
    assert(fed_once(a, net)) by {
        assert forall|i: int, side: int| 0 <= i < n && 0 <= side < 3 implies exactly_one(
            a,
            #[trigger] net[i].sides[side],
        ) by {
            assert(fed_in_order(a, cell_at(0, inputs, i)));
        }
    }
    let b = lemma_excitations_complete(a, fixed, f, base, net, inputs, pow2(inputs));
    lemma_topology_within(inputs, n);
    lemma_agree_satisfies(fixed, b, base, topology_clauses(inputs, n));
    lemma_satisfies_concat(
        b,
        topology_clauses(inputs, n),
        joined(pow2(inputs), excitation_clauses_at(base, net, inputs)),
    );
    b
}

/// The assignments that satisfy `clauses` are those that describe a valid
/// network with `inputs` inputs and `n` tables: each of them describes one,
/// and each assignment that describes one satisfies `clauses` once the
/// variables that do not describe the network have their values.
pub open spec fn describes_valid_networks(clauses: Seq<Seq<int>>, inputs: nat, n: nat) -> bool {
    &&& forall|a: spec_fn(int) -> bool| #[trigger] satisfies(a, clauses) ==> valid(a, inputs, n)
    &&& forall|a: spec_fn(int) -> bool| #[trigger]
        valid(a, inputs, n) ==> exists|b: spec_fn(int) -> bool| #[trigger]
            same_network(a, b, cells(0, inputs, n)) && satisfies(b, clauses)
}

/// The formula of a network is satisfied by the assignments that describe a
/// valid network, and by no others.
pub proof fn lemma_generated_describes(inputs: nat, n: nat)
    requires
        0 < inputs,
        0 < n,
    ensures
        describes_valid_networks(generated(inputs, n).clauses, inputs, n),
{
    let clauses = generated(inputs, n).clauses;
    assert forall|a: spec_fn(int) -> bool| #[trigger] satisfies(a, clauses) implies valid(
        a,
        inputs,
        n,
    ) by {
        lemma_generated_valid(a, inputs, n);
    }
    assert forall|a: spec_fn(int) -> bool| #[trigger] valid(a, inputs, n) implies exists|
        b: spec_fn(int) -> bool,
    | #[trigger] same_network(a, b, cells(0, inputs, n)) && satisfies(b, clauses) by {
        let b = lemma_valid_generated(a, inputs, n);
        assert(same_network(a, b, cells(0, inputs, n)) && satisfies(b, clauses));
    }
}

/// The formula of a network can be satisfied exactly when a valid network
/// exists.
pub proof fn lemma_satisfiable(inputs: nat, n: nat)
    requires
        0 < inputs,
        0 < n,
    ensures
        (exists|a: spec_fn(int) -> bool| #[trigger] satisfies(a, generated(inputs, n).clauses))
            <==> (exists|a: spec_fn(int) -> bool| #[trigger] valid(a, inputs, n)),
{
    if exists|a: spec_fn(int) -> bool| #[trigger] satisfies(a, generated(inputs, n).clauses) {
        let a = choose|a: spec_fn(int) -> bool| #[trigger]
            satisfies(a, generated(inputs, n).clauses);
        lemma_generated_valid(a, inputs, n);
    }
    if exists|a: spec_fn(int) -> bool| #[trigger] valid(a, inputs, n) {
        let a = choose|a: spec_fn(int) -> bool| #[trigger] valid(a, inputs, n);
        let b = lemma_valid_generated(a, inputs, n);
        assert(satisfies(b, generated(inputs, n).clauses));
    }
}

} // verus!
