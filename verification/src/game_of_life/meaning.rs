//! What the formula of a network means: every assignment that satisfies it
//! describes a network that computes the rule of the Game of Life.

use crate::cnf::Formula;
use crate::comparator::meaning::{lemma_less_than_equal_sound, value};
use crate::game_of_life::{
    bit, cell_clauses_at, cells, cells_variables, excitation_clauses, excitation_clauses_at,
    excitation_variables, generated, input_rules_at, inputs_of, last_uses_previous,
    lemma_cell_owned, lemma_cells_variables_rise, less, lives, network, order_clauses_at,
    output_rules_at, pins, rule, signals, sources, tail_clauses_at, tails_variables,
    topology_clauses, uses, wiring_at,
};
use crate::game_of_life::fidelity::{fed, lemma_cell_sound, lemma_fidelity};
use crate::game_of_life::lut::{connection_clauses, output_clauses, reach, Cell};
use crate::logic::{
    at_least_one, clause_holds, exactly_one, joined, lemma_clause_1, lemma_clause_push,
    lemma_satisfies_1, lemma_satisfies_concat, lemma_satisfies_joined, literal_holds, satisfies,
    variables_within,
};
use vstd::arithmetic::power2::pow2;
use vstd::prelude::*;

verus! {

/// The signal that feeds side `side` of the table `c` under `a`.
pub open spec fn source(a: spec_fn(int) -> bool, c: Cell, side: int) -> int {
    choose|j: int| 0 <= j < c.sides[side].len() && a(#[trigger] c.sides[side][j])
}

/// One for `true`, zero for `false`.
pub open spec fn bit_value(value: bool) -> int {
    if value {
        1
    } else {
        0
    }
}

/// What the table `c` puts out under `a` when the signals have the values
/// `state`: the entry of its truth table whose number the signals that feed
/// its three sides spell, the first side being the lowest digit.
pub open spec fn output_of(a: spec_fn(int) -> bool, c: Cell, state: Seq<bool>) -> bool {
    a(
        c.table[bit_value(state[source(a, c, 0)]) + 2 * bit_value(state[source(a, c, 1)])
            + 4 * bit_value(state[source(a, c, 2)])],
    )
}

/// The values of the signals after the first `k` tables of the network that
/// `a` describes have worked on the inputs `excitation`: the digits of
/// `excitation`, and the output of each table in turn.
pub open spec fn run(
    a: spec_fn(int) -> bool,
    cells: Seq<Cell>,
    inputs: nat,
    excitation: nat,
    k: nat,
) -> Seq<bool>
    decreases k,
{
    if k == 0 {
        Seq::new(inputs, |i: int| bit(excitation, i as nat))
    } else {
        let before = run(a, cells, inputs, excitation, (k - 1) as nat);
        before.push(output_of(a, cells[k - 1], before))
    }
}

/// Each side of each table is fed by some signal under `a`.
pub open spec fn fed_everywhere(a: spec_fn(int) -> bool, cells: Seq<Cell>) -> bool {
    forall|i: int, side: int|
        0 <= i < cells.len() && 0 <= side < 3 ==> at_least_one(
            a,
            #[trigger] cells[i].sides[side],
        )
}

/// The signals have one value each after any number of tables.
pub proof fn lemma_run_len(
    a: spec_fn(int) -> bool,
    cells: Seq<Cell>,
    inputs: nat,
    excitation: nat,
    k: nat,
)
    ensures
        run(a, cells, inputs, excitation, k).len() == inputs + k,
    decreases k,
{
    if k > 0 {
        lemma_run_len(a, cells, inputs, excitation, (k - 1) as nat);
    }
}

/// Under an assignment that satisfies the clauses of `pins`, each input has
/// the value of its digit in the excitation.
pub proof fn lemma_pins(
    a: spec_fn(int) -> bool,
    state: Seq<int>,
    inputs: nat,
    excitation: nat,
    n: nat,
)
    requires
        inputs <= state.len(),
        variables_within(state, n),
        satisfies(a, pins(state, inputs, excitation)),
    ensures
        forall|i: int| 0 <= i < inputs ==> a(#[trigger] state[i]) == bit(excitation, i as nat),
{
    let p = pins(state, inputs, excitation);
    assert forall|i: int| 0 <= i < inputs implies a(#[trigger] state[i]) == bit(
        excitation,
        i as nat,
    ) by {
        assert(clause_holds(a, p[i]));
        assert(1 <= state[i] <= n);
        lemma_clause_1(a, state[i]);
        lemma_clause_1(a, -state[i]);
    }
}

/// Under an assignment that satisfies the clauses of an excitation, the
/// signals of the excitation have the values that the network computes: the
/// inputs and the outputs of the first `k` tables are those of `run`.
pub proof fn lemma_excitation_runs(
    a: spec_fn(int) -> bool,
    f: Formula,
    base: nat,
    cells: Seq<Cell>,
    inputs: nat,
    excitation: nat,
    k: nat,
)
    requires
        0 < inputs,
        k <= cells.len(),
        f.variables <= base,
        network(cells, inputs, f),
        fed_everywhere(a, cells),
        satisfies(a, excitation_clauses(base, cells, inputs, excitation)),
    ensures
        forall|j: int|
            0 <= j < inputs + k ==> a(#[trigger] signals(base, cells, inputs)[j]) == run(
                a,
                cells,
                inputs,
                excitation,
                k,
            )[j],
    decreases k,
{
    reveal(excitation_clauses);
    let state = signals(base, cells, inputs);
    let top = base + excitation_variables(inputs, cells.len());
    let pinned = pins(state, inputs, excitation);
    let wanted = seq![
        seq![
            if lives(excitation) {
                state.last()
            } else {
                -state.last()
            },
        ],
    ];
    let part = wiring_at(base, cells, inputs);
    lemma_satisfies_concat(a, pinned + wanted, joined(cells.len(), part));
    lemma_satisfies_concat(a, pinned, wanted);
    assert(variables_within(state, top));
    if k == 0 {
        lemma_pins(a, state, inputs, excitation, top);
    } else {
        let i = k - 1;
        lemma_excitation_runs(a, f, base, cells, inputs, excitation, i as nat);
        lemma_run_len(a, cells, inputs, excitation, i as nat);
        let before = run(a, cells, inputs, excitation, i as nat);
        let c = cells[i];
        let ins = inputs_of(base, cells, inputs, i);
        lemma_satisfies_joined(a, cells.len(), part);
        assert(satisfies(a, part(i)));
        lemma_satisfies_concat(
            a,
            output_clauses(c.table, ins, state[inputs + i]),
            connection_clauses(c, ins, state),
        );
        assert(c.wf() && c.width() == inputs + i && c.owned_by(f));
        let g = Formula { variables: top, clauses: f.clauses, names: f.names };
        f.lemma_owns_all_more(g, c.sides[0]);
        f.lemma_owns_all_more(g, c.sides[1]);
        f.lemma_owns_all_more(g, c.sides[2]);
        f.lemma_owns_all_more(g, c.table);
        assert(variables_within(ins, top));
        let chosen = seq![source(a, c, 0), source(a, c, 1), source(a, c, 2)];
        assert forall|side: int| 0 <= side < 3 implies 0 <= #[trigger] chosen[side] < reach(
            c.width(),
            state.len(),
        ) && a(c.sides[side][chosen[side]]) by {
            assert(at_least_one(a, cells[i].sides[side]));
        }
        assert(1 <= state[inputs + i] <= top);
        lemma_fidelity(a, c, ins, state, state[inputs + i], chosen, top);
        assert(a(state[chosen[0]]) == before[chosen[0]]);
        assert(a(state[chosen[1]]) == before[chosen[1]]);
        assert(a(state[chosen[2]]) == before[chosen[2]]);
        assert(fed(a, state, chosen) == bit_value(before[source(a, c, 0)]) + 2 * bit_value(
            before[source(a, c, 1)],
        ) + 4 * bit_value(before[source(a, c, 2)]));
        assert(a(state[inputs + i]) == output_of(a, c, before));
    }
}

/// Under an assignment that satisfies the clauses of an excitation, the last
/// table of the network puts out what the Game of Life asks for.
pub proof fn lemma_excitation_sound(
    a: spec_fn(int) -> bool,
    f: Formula,
    base: nat,
    cells: Seq<Cell>,
    inputs: nat,
    excitation: nat,
)
    requires
        0 < inputs,
        0 < cells.len(),
        f.variables <= base,
        network(cells, inputs, f),
        fed_everywhere(a, cells),
        satisfies(a, excitation_clauses(base, cells, inputs, excitation)),
    ensures
        run(a, cells, inputs, excitation, cells.len()).last() == lives(excitation),
{
    lemma_excitation_runs(a, f, base, cells, inputs, excitation, cells.len());
    lemma_run_len(a, cells, inputs, excitation, cells.len());
    reveal(excitation_clauses);
    let state = signals(base, cells, inputs);
    let pinned = pins(state, inputs, excitation);
    let literal = if lives(excitation) {
        state.last()
    } else {
        -state.last()
    };
    let part = wiring_at(base, cells, inputs);
    lemma_satisfies_concat(a, pinned + seq![seq![literal]], joined(cells.len(), part));
    lemma_satisfies_concat(a, pinned, seq![seq![literal]]);
    lemma_satisfies_1(a, seq![literal]);
    lemma_clause_1(a, literal);
    assert(state.last() == state[inputs + cells.len() - 1]);
    assert(a(state[inputs + cells.len() - 1]) == run(
        a,
        cells,
        inputs,
        excitation,
        cells.len(),
    )[inputs + cells.len() - 1]);
}

/// The network that a satisfying assignment describes computes the rule of
/// the Game of Life. Under every assignment that satisfies the formula of a
/// network with `inputs` inputs and `n` tables, each side of each table is
/// fed by exactly one signal; and for every excitation of the inputs, the
/// last table of the network so described puts out whether the cell in the
/// middle of the neighbourhood is alive in the next state.
pub proof fn lemma_generated_sound(a: spec_fn(int) -> bool, inputs: nat, n: nat, excitation: nat)
    requires
        0 < inputs,
        0 < n,
        excitation < pow2(inputs),
        satisfies(a, generated(inputs, n).clauses),
    ensures
        forall|i: int, side: int|
            0 <= i < n && 0 <= side < 3 ==> exactly_one(
                a,
                #[trigger] cells(0, inputs, n)[i].sides[side],
            ),
        run(a, cells(0, inputs, n), inputs, excitation, n).last() == lives(excitation),
{
    let net = cells(0, inputs, n);
    let tables = cells_variables(inputs, n);
    let base = tables + tails_variables(inputs, less(n, 1));
    let per = excitation_variables(inputs, n);
    let part = excitation_clauses_at(base, net, inputs);
    lemma_topology(a, inputs, n);
    // The clauses of the tables.
    lemma_satisfies_joined(a, n, cell_clauses_at(0, inputs));
    let f = Formula { variables: tables, clauses: Seq::empty(), names: Seq::empty() };
    lemma_network(inputs, n, f);
    assert forall|i: int| 0 <= i < n implies exactly_one(a, (#[trigger] net[i]).sides[0])
        && exactly_one(a, net[i].sides[1]) && exactly_one(a, net[i].sides[2]) by {
        assert(satisfies(a, cell_clauses_at(0, inputs)(i)));
        lemma_cell_sound(a, cells_variables(inputs, i as nat), (inputs + i) as nat);
    }
    assert forall|i: int, side: int| 0 <= i < n && 0 <= side < 3 implies exactly_one(
        a,
        #[trigger] net[i].sides[side],
    ) by {
        assert(exactly_one(a, net[i].sides[0]));
    }
    assert(fed_everywhere(a, net));
    // The clauses of the excitation.
    lemma_satisfies_joined(a, pow2(inputs), part);
    assert(satisfies(a, part(excitation as int)));
    assert(excitation * per >= 0) by (nonlinear_arith)
        requires
            excitation >= 0,
            per >= 0,
    ;
    lemma_excitation_sound(a, f, (base + excitation * per) as nat, net, inputs, excitation);
}

/// Under `a`, some side of one of the tables `lo..hi` is fed by signal
/// `signal`.
pub open spec fn used_between(
    a: spec_fn(int) -> bool,
    cells: Seq<Cell>,
    lo: int,
    hi: int,
    signal: int,
) -> bool {
    exists|i: int, side: int|
        lo <= i < hi && 0 <= side < 3 && 0 <= signal < cells[i].sides[side].len() && a(
            #[trigger] cells[i].sides[side][signal],
        )
}

/// Under `a`, some side of some table is fed by signal `signal`.
pub open spec fn used(a: spec_fn(int) -> bool, cells: Seq<Cell>, signal: int) -> bool {
    used_between(a, cells, 0, cells.len() as int, signal)
}

/// The tables `lo..hi` have three sides each, which can be fed by signal
/// `signal`, and whose variables are variables of `f`.
pub open spec fn reachable(cells: Seq<Cell>, lo: int, hi: int, signal: int, f: Formula) -> bool {
    &&& 0 <= lo <= hi <= cells.len()
    &&& forall|i: int|
        lo <= i < hi ==> (#[trigger] cells[i]).wf() && 0 <= signal < cells[i].width()
            && cells[i].owned_by(f)
}

/// The clause of the choices of a signal on the tables `lo..hi` is true
/// exactly when one of these tables is fed by the signal.
pub proof fn lemma_sources(
    a: spec_fn(int) -> bool,
    cells: Seq<Cell>,
    lo: int,
    hi: int,
    signal: int,
    f: Formula,
)
    requires
        reachable(cells, lo, hi, signal, f),
    ensures
        clause_holds(a, sources(cells, lo, hi, signal)) <==> used_between(a, cells, lo, hi, signal),
        variables_within(sources(cells, lo, hi, signal), f.variables),
{
    let c = sources(cells, lo, hi, signal);
    assert forall|k: int| 0 <= k < c.len() implies 1 <= #[trigger] c[k] <= f.variables by {
        let cell = cells[lo + k / 3];
        assert(cell.wf() && cell.owned_by(f));
        assert(1 <= cell.sides[k % 3][signal] <= f.variables);
    }
    if clause_holds(a, c) {
        let k = choose|k: int| 0 <= k < c.len() && literal_holds(a, #[trigger] c[k]);
        assert(1 <= c[k]);
        assert(cells[lo + k / 3].wf());
        assert(a(cells[lo + k / 3].sides[k % 3][signal]));
    }
    if used_between(a, cells, lo, hi, signal) {
        let (i, side) = choose|i: int, side: int|
            lo <= i < hi && 0 <= side < 3 && 0 <= signal < cells[i].sides[side].len() && a(
                #[trigger] cells[i].sides[side][signal],
            );
        let k = 3 * (i - lo) + side;
        assert(c[k] == cells[i].sides[side][signal]);
        assert(1 <= c[k]);
        assert(literal_holds(a, c[k]));
    }
}

/// The clause of the choices of a signal on all tables is true exactly when
/// some table is fed by the signal.
pub proof fn lemma_uses(a: spec_fn(int) -> bool, cells: Seq<Cell>, signal: int, f: Formula)
    requires
        reachable(cells, 0, cells.len() as int, signal, f),
    ensures
        clause_holds(a, uses(cells, signal)) <==> used(a, cells, signal),
{
    assert(uses(cells, signal) =~= sources(cells, 0, cells.len() as int, signal)) by {
        assert(cells.len() * 3 == 3 * cells.len()) by (nonlinear_arith);
    }
    lemma_sources(a, cells, 0, cells.len() as int, signal, f);
}

/// The clauses of a rule are satisfied exactly when the table is fed by the
/// signal only if one of the tables `lo..=instruction` is fed by the signal
/// before it.
pub proof fn lemma_rule(
    a: spec_fn(int) -> bool,
    cells: Seq<Cell>,
    instruction: int,
    lo: int,
    signal: int,
    f: Formula,
)
    requires
        0 <= lo <= instruction < cells.len(),
        reachable(cells, lo, instruction + 1, signal - 1, f),
        0 <= signal < cells[instruction].width(),
    ensures
        satisfies(a, rule(cells, instruction, lo, signal)) <==> (used_between(
            a,
            cells,
            instruction,
            instruction + 1,
            signal,
        ) ==> used_between(a, cells, lo, instruction + 1, signal - 1)),
{
    let r = rule(cells, instruction, lo, signal);
    let before = sources(cells, lo, instruction + 1, signal - 1);
    let cell = cells[instruction];
    lemma_sources(a, cells, lo, instruction + 1, signal - 1, f);
    assert(cell.wf() && cell.owned_by(f));
    assert forall|side: int| 0 <= side < 3 implies (clause_holds(a, #[trigger] r[side]) <==> (a(
        cell.sides[side][signal],
    ) ==> used_between(a, cells, lo, instruction + 1, signal - 1))) by {
        assert(1 <= cell.sides[side][signal] <= f.variables);
        lemma_clause_push(a, before, -cell.sides[side][signal]);
    }
    if satisfies(a, r) && used_between(a, cells, instruction, instruction + 1, signal) {
        let (i, side) = choose|i: int, side: int|
            instruction <= i < instruction + 1 && 0 <= side < 3 && 0 <= signal
                < cells[i].sides[side].len() && a(#[trigger] cells[i].sides[side][signal]);
        assert(clause_holds(a, r[side]));
    }
    if used_between(a, cells, instruction, instruction + 1, signal) ==> used_between(
        a,
        cells,
        lo,
        instruction + 1,
        signal - 1,
    ) {
        assert forall|side: int| 0 <= side < r.len() implies clause_holds(
            a,
            #[trigger] r[side],
        ) by {
            if a(cell.sides[side][signal]) {
                assert(a(cells[instruction].sides[side][signal]));
            }
        }
    }
}

/// The parts of the formula of a network that do not depend on an
/// excitation are each satisfied by an assignment that satisfies the whole.
pub proof fn lemma_topology(a: spec_fn(int) -> bool, inputs: nat, n: nat)
    requires
        satisfies(a, generated(inputs, n).clauses),
    ensures
        satisfies(a, joined(n, cell_clauses_at(0, inputs))),
        clause_holds(a, uses(cells(0, inputs, n), 0)),
        clause_holds(a, uses(cells(0, inputs, n), inputs - 1)),
        satisfies(a, last_uses_previous(cells(0, inputs, n), inputs)),
        satisfies(
            a,
            joined(
                less(n, 1),
                tail_clauses_at(cells_variables(inputs, n), cells(0, inputs, n), inputs),
            ),
        ),
        satisfies(a, joined(n, order_clauses_at(cells(0, inputs, n), inputs))),
        satisfies(
            a,
            joined(
                pow2(inputs),
                excitation_clauses_at(
                    cells_variables(inputs, n) + tails_variables(inputs, less(n, 1)),
                    cells(0, inputs, n),
                    inputs,
                ),
            ),
        ),
{
    reveal(generated);
    reveal(topology_clauses);
    let net = cells(0, inputs, n);
    let tables = cells_variables(inputs, n);
    let base = tables + tails_variables(inputs, less(n, 1));
    let part = excitation_clauses_at(base, net, inputs);
    lemma_satisfies_concat(a, topology_clauses(inputs, n), joined(pow2(inputs), part));
    let made = joined(n, cell_clauses_at(0, inputs));
    let used_0 = seq![uses(net, 0)];
    let used_1 = seq![uses(net, inputs - 1)];
    let last = last_uses_previous(net, inputs);
    let tails = joined(less(n, 1), tail_clauses_at(tables, net, inputs));
    let order = joined(n, order_clauses_at(net, inputs));
    lemma_satisfies_concat(a, made + used_0 + used_1 + last + tails, order);
    lemma_satisfies_concat(a, made + used_0 + used_1 + last, tails);
    lemma_satisfies_concat(a, made + used_0 + used_1, last);
    lemma_satisfies_concat(a, made + used_0, used_1);
    lemma_satisfies_concat(a, made, used_0);
    lemma_satisfies_1(a, uses(net, 0));
    lemma_satisfies_1(a, uses(net, inputs - 1));
}

/// The tables of a network belong to every formula that has their variables.
pub proof fn lemma_network(inputs: nat, n: nat, f: Formula)
    requires
        cells_variables(inputs, n) <= f.variables,
    ensures
        network(cells(0, inputs, n), inputs, f),
{
    let net = cells(0, inputs, n);
    assert forall|i: int| 0 <= i < n implies (#[trigger] net[i]).wf() && net[i].width() == inputs
        + i && net[i].owned_by(f) by {
        lemma_cells_variables_rise(inputs, (i + 1) as nat, n);
        lemma_cell_owned(cells_variables(inputs, i as nat), (inputs + i) as nat, f);
    }
}

/// Under an assignment that satisfies the formula of a network, a table is
/// fed by an input of the network, other than the first two, only if the
/// same table or one before it is fed by the input before; and by the
/// output of a table, other than the first, only if the same table or one
/// of those after the table that puts it out is fed by the output before.
pub proof fn lemma_in_order(a: spec_fn(int) -> bool, inputs: nat, n: nat, i: int, signal: int)
    requires
        0 < inputs,
        0 <= i < n,
        2 <= signal < inputs + i,
        signal != inputs,
        satisfies(a, generated(inputs, n).clauses),
        used_between(a, cells(0, inputs, n), i, i + 1, signal),
    ensures
        signal < inputs ==> used_between(a, cells(0, inputs, n), 0, i + 1, signal - 1),
        signal > inputs ==> used_between(
            a,
            cells(0, inputs, n),
            signal - inputs + 1,
            i + 1,
            signal - 1,
        ),
{
    let net = cells(0, inputs, n);
    let f = Formula {
        variables: cells_variables(inputs, n),
        clauses: Seq::empty(),
        names: Seq::empty(),
    };
    lemma_topology(a, inputs, n);
    lemma_network(inputs, n, f);
    lemma_satisfies_joined(a, n, order_clauses_at(net, inputs));
    assert(satisfies(a, order_clauses_at(net, inputs)(i)));
    let first = joined(less(inputs, 2), input_rules_at(net, i));
    let second = joined(less(i as nat, 1), output_rules_at(net, inputs, i));
    lemma_satisfies_concat(a, first, second);
    assert(net[i].wf() && net[i].width() == inputs + i);
    if signal < inputs {
        lemma_satisfies_joined(a, less(inputs, 2), input_rules_at(net, i));
        assert(satisfies(a, input_rules_at(net, i)(signal - 2)));
        assert(reachable(net, 0, i + 1, signal - 1, f)) by {
            assert forall|l: int| 0 <= l < i + 1 implies (#[trigger] net[l]).wf() && 0 <= signal
                - 1 < net[l].width() && net[l].owned_by(f) by {}
        }
        lemma_rule(a, net, i, 0, signal, f);
    } else {
        let k = signal - inputs - 1;
        lemma_satisfies_joined(a, less(i as nat, 1), output_rules_at(net, inputs, i));
        assert(satisfies(a, output_rules_at(net, inputs, i)(k)));
        assert(reachable(net, k + 2, i + 1, signal - 1, f)) by {
            assert forall|l: int| k + 2 <= l < i + 1 implies (#[trigger] net[l]).wf() && 0
                <= signal - 1 < net[l].width() && net[l].owned_by(f) by {}
        }
        lemma_rule(a, net, i, k + 2, signal, f);
    }
}

/// A signal that feeds one of some tables feeds one of all tables.
pub proof fn lemma_used_wider(
    a: spec_fn(int) -> bool,
    cells: Seq<Cell>,
    lo: int,
    hi: int,
    signal: int,
)
    requires
        0 <= lo,
        hi <= cells.len(),
        used_between(a, cells, lo, hi, signal),
    ensures
        used(a, cells, signal),
{
    let (i, side) = choose|i: int, side: int|
        lo <= i < hi && 0 <= side < 3 && 0 <= signal < cells[i].sides[side].len() && a(
            #[trigger] cells[i].sides[side][signal],
        );
    assert(0 <= i < cells.len() && 0 <= side < 3 && 0 <= signal < cells[i].sides[side].len() && a(
        cells[i].sides[side][signal],
    ));
}

/// Under an assignment that satisfies the formula of a network, the first
/// and the last input of the network feed some table.
pub proof fn lemma_ends_used(a: spec_fn(int) -> bool, inputs: nat, n: nat, signal: int)
    requires
        0 < inputs,
        0 < n,
        signal == 0 || signal == inputs - 1,
        satisfies(a, generated(inputs, n).clauses),
    ensures
        used(a, cells(0, inputs, n), signal),
{
    let net = cells(0, inputs, n);
    let f = Formula {
        variables: cells_variables(inputs, n),
        clauses: Seq::empty(),
        names: Seq::empty(),
    };
    lemma_topology(a, inputs, n);
    lemma_network(inputs, n, f);
    assert(reachable(net, 0, n as int, signal, f)) by {
        assert forall|l: int| 0 <= l < n implies (#[trigger] net[l]).wf() && 0 <= signal
            < net[l].width() && net[l].owned_by(f) by {}
    }
    lemma_uses(a, net, signal, f);
}

/// Under an assignment that satisfies the formula of a network of more than
/// one table, the last table is fed by the one before it.
pub proof fn lemma_last_fed(a: spec_fn(int) -> bool, inputs: nat, n: nat)
    requires
        0 < inputs,
        1 < n,
        satisfies(a, generated(inputs, n).clauses),
    ensures
        a(cells(0, inputs, n)[n - 1].sides[2][inputs + n - 2]),
        used(a, cells(0, inputs, n), inputs + n - 2),
{
    let net = cells(0, inputs, n);
    let signal = inputs + n - 2;
    let f = Formula {
        variables: cells_variables(inputs, n),
        clauses: Seq::empty(),
        names: Seq::empty(),
    };
    lemma_topology(a, inputs, n);
    lemma_network(inputs, n, f);
    let last = net[n - 1];
    assert(last.wf() && last.width() == inputs + n - 1 && last.owned_by(f));
    assert(net.last() == last);
    lemma_satisfies_1(a, seq![last.sides[2][signal]]);
    assert(1 <= last.sides[2][signal] <= f.variables);
    lemma_clause_1(a, last.sides[2][signal]);
    assert(0 <= n - 1 < net.len() && 0 <= 2 < 3int && 0 <= signal < net[n - 1].sides[2].len() && a(
        net[n - 1].sides[2][signal],
    ));
}

/// Under an assignment that satisfies the formula of a network, a signal
/// feeds some table if the signal after it does, unless it is the first
/// input or the last.
pub proof fn lemma_previous_used(a: spec_fn(int) -> bool, inputs: nat, n: nat, signal: int)
    requires
        0 < inputs,
        0 < n,
        1 <= signal,
        signal != inputs - 1,
        satisfies(a, generated(inputs, n).clauses),
        used(a, cells(0, inputs, n), signal + 1),
    ensures
        used(a, cells(0, inputs, n), signal),
{
    let net = cells(0, inputs, n);
    let f = Formula {
        variables: cells_variables(inputs, n),
        clauses: Seq::empty(),
        names: Seq::empty(),
    };
    lemma_network(inputs, n, f);
    let (i, side) = choose|i: int, side: int|
        0 <= i < net.len() && 0 <= side < 3 && 0 <= signal + 1 < net[i].sides[side].len() && a(
            #[trigger] net[i].sides[side][signal + 1],
        );
    assert(net[i].wf() && net[i].width() == inputs + i);
    assert(used_between(a, net, i, i + 1, signal + 1));
    lemma_in_order(a, inputs, n, i, signal + 1);
    if signal + 1 < inputs {
        lemma_used_wider(a, net, 0, i + 1, signal);
    } else {
        lemma_used_wider(a, net, signal + 1 - inputs + 1, i + 1, signal);
    }
}

/// Under an assignment that satisfies the formula of a network, every signal
/// but the output of the last table feeds some table: each input of the
/// network, and the output of each table before the last.
pub proof fn lemma_all_used(a: spec_fn(int) -> bool, inputs: nat, n: nat, signal: int)
    requires
        0 < inputs,
        0 < n,
        0 <= signal < inputs + n - 1,
        satisfies(a, generated(inputs, n).clauses),
    ensures
        used(a, cells(0, inputs, n), signal),
    decreases inputs + n - signal,
{
    if signal == 0 || signal == inputs - 1 {
        lemma_ends_used(a, inputs, n, signal);
    } else if signal == inputs + n - 2 {
        lemma_last_fed(a, inputs, n);
    } else {
        lemma_all_used(a, inputs, n, signal + 1);
        lemma_previous_used(a, inputs, n, signal);
    }
}

/// Under an assignment that satisfies the formula of a network, the signal
/// that feeds the third side of a table is at most the one that feeds the
/// third side of the next table: read as binary numbers, the choices of the
/// one are at most those of the other.
pub proof fn lemma_tails_ordered(a: spec_fn(int) -> bool, inputs: nat, n: nat, i: int)
    requires
        0 < inputs,
        0 <= i < n - 1,
        satisfies(a, generated(inputs, n).clauses),
    ensures
        value(a, cells(0, inputs, n)[i].sides[2]) <= value(a, cells(0, inputs, n)[i + 1].sides[2]),
{
    let net = cells(0, inputs, n);
    let tables = cells_variables(inputs, n);
    let f = Formula { variables: tables, clauses: Seq::empty(), names: Seq::empty() };
    lemma_topology(a, inputs, n);
    lemma_network(inputs, n, f);
    let part = tail_clauses_at(tables, net, inputs);
    lemma_satisfies_joined(a, less(n, 1), part);
    assert(satisfies(a, part(i)));
    let base = tables + tails_variables(inputs, i as nat);
    assert(net[i].wf() && net[i].owned_by(f) && net[i].width() == inputs + i);
    assert(net[i + 1].wf() && net[i + 1].owned_by(f));
    let g = Formula { variables: base, clauses: Seq::empty(), names: Seq::empty() };
    f.lemma_owns_all_more(g, net[i].sides[2]);
    f.lemma_owns_all_more(g, net[i + 1].sides[2]);
    lemma_less_than_equal_sound(a, base, net[i].sides[2], net[i + 1].sides[2]);
}

} // verus!
