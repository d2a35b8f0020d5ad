//! The network of lookup tables and the formula that a network satisfies
//! exactly when it computes the next state of a cell in the Game of Life.

use crate::Args;
use crate::cnf::{indices, Clause, Formula, Variable, CNF};
use crate::comparator::{comparator_variables, less_than_equal_clauses};
use crate::dimacs::dimacs;
use crate::game_of_life::lut::{
    cell, cell_clauses, cell_names, cell_variables, connection_clauses, output_clauses, Cell, LUT3,
};
use crate::game_of_life::meaning::{lemma_generated_sound, run};
use crate::game_of_life::network::{describes_valid_networks, lemma_generated_describes};
use crate::logic::{fresh, joined, lemma_append_assoc, lemma_extend, lemma_join_next, satisfies};
use crate::tuples::{grid, index_grid, index_neighbours, neighbours, positions};
use vstd::arithmetic::power2::pow2;
use vstd::prelude::*;

pub mod budget;
pub mod fidelity;
pub mod lut;
pub mod meaning;
pub mod network;

verus! {

/// How many of the binary digits of `e` are one.
pub open spec fn ones(e: nat) -> nat
    decreases e,
{
    if e == 0 {
        0
    } else {
        e % 2 + ones(e / 2)
    }
}

/// Whether digit `i` of `e` in binary is one, digit 0 being the least
/// significant.
pub open spec fn bit(e: nat, i: nat) -> bool
    decreases i,
{
    if i == 0 {
        e % 2 == 1
    } else {
        bit(e / 2, (i - 1) as nat)
    }
}

/// The rule of the Game of Life. Digit 0 of `excitation` says whether the
/// cell is alive, each further digit whether one of its neighbours is. The
/// cell is alive in the next state if three neighbours are alive, or if it is
/// alive and two neighbours are.
pub open spec fn lives(excitation: nat) -> bool {
    ones(excitation / 2) == 3 || (excitation % 2 == 1 && ones(excitation / 2) == 2)
}

/// Whether a cell with the neighbourhood `excitation` is alive in the next
/// state of the Game of Life.
pub fn game_of_life_step(excitation: usize) -> (alive: bool)
    ensures
        alive == lives(excitation as nat),
{
    let mut count: usize = 0;
    let mut rest = excitation / 2;
    while rest != 0
        invariant
            count + ones(rest as nat) == ones((excitation / 2) as nat),
            count <= usize::MAX - rest,
        decreases rest,
    {
        proof {
            lemma_ones_bound(rest as nat);
        }
        count = count + rest % 2;
        rest = rest / 2;
    }
    count == 3 || (excitation % 2 == 1 && count == 2)
}

/// A number has at most as many ones as it has digits, and fewer than its
/// value, unless it is zero.
pub proof fn lemma_ones_bound(e: nat)
    ensures
        ones(e) <= e,
    decreases e,
{
    if e > 0 {
        lemma_ones_bound(e / 2);
    }
}

/// The tables of a list, as mathematical values.
pub open spec fn views(luts: Seq<LUT3>) -> Seq<Cell> {
    luts.map_values(|lut: LUT3| lut@)
}

/// The tables `cells` form a network with `inputs` inputs over the formula
/// `f`: table `i` can be fed by the inputs and by the tables before it, and
/// its variables are variables of `f`.
pub open spec fn network(cells: Seq<Cell>, inputs: nat, f: Formula) -> bool {
    forall|i: int|
        0 <= i < cells.len() ==> (#[trigger] cells[i]).wf() && cells[i].width() == inputs + i
            && cells[i].owned_by(f)
}

/// How many variables the first `k` tables of a network with `inputs` inputs
/// issue.
pub open spec fn cells_variables(inputs: nat, k: nat) -> nat
    decreases k,
{
    if k == 0 {
        0
    } else {
        cells_variables(inputs, (k - 1) as nat) + cell_variables((inputs + k - 1) as nat)
    }
}

/// Table `i` of a network with `inputs` inputs that is made from a formula of
/// `base` variables.
pub open spec fn cell_at(base: nat, inputs: nat, i: int) -> Cell {
    cell(base + cells_variables(inputs, i as nat), (inputs + i) as nat)
}

/// The first `n` tables of such a network.
pub open spec fn cells(base: nat, inputs: nat, n: nat) -> Seq<Cell> {
    Seq::new(n, |i: int| cell_at(base, inputs, i))
}

/// The clauses of table `i` of such a network, as a function of `i`.
pub open spec fn cell_clauses_at(base: nat, inputs: nat) -> spec_fn(int) -> Seq<Seq<int>> {
    |i: int| cell_clauses(base + cells_variables(inputs, i as nat), (inputs + i) as nat)
}

/// The names of table `i` of such a network, as a function of `i`.
pub open spec fn cell_names_at(base: nat, inputs: nat) -> spec_fn(int) -> Seq<(int, Seq<char>)> {
    |i: int| cell_names(base + cells_variables(inputs, i as nat), i as nat, (inputs + i) as nat)
}

/// The more tables, the more variables.
pub proof fn lemma_cells_variables_rise(inputs: nat, i: nat, j: nat)
    requires
        i <= j,
    ensures
        cells_variables(inputs, i) <= cells_variables(inputs, j),
    decreases j,
{
    if i < j {
        lemma_cells_variables_rise(inputs, i, (j - 1) as nat);
    }
}

/// A table made from a formula of `base` variables belongs to every formula
/// that has the table's own variables.
pub proof fn lemma_cell_owned(base: nat, m: nat, f: Formula)
    requires
        base + 3 * m + 8 <= f.variables,
    ensures
        cell(base, m).wf(),
        cell(base, m).width() == m,
        cell(base, m).owned_by(f),
{
}

/// Makes the tables of the network, one after the other.
fn new_cells(cnf: &mut CNF, args: &Args) -> (luts: Vec<LUT3>)
    requires
        old(cnf).wf(),
        0 < args.input_count,
        args.input_count + args.instruction_count <= usize::MAX,
        old(cnf)@.variables + cells_variables(
            args.input_count as nat,
            args.instruction_count as nat,
        ) <= isize::MAX,
    ensures
        views(luts@) == cells(
            old(cnf)@.variables,
            args.input_count as nat,
            args.instruction_count as nat,
        ),
        final(cnf)@.variables == old(cnf)@.variables + cells_variables(
            args.input_count as nat,
            args.instruction_count as nat,
        ),
        final(cnf)@.clauses == old(cnf)@.clauses + joined(
            args.instruction_count as nat,
            cell_clauses_at(old(cnf)@.variables, args.input_count as nat),
        ),
        final(cnf)@.names == old(cnf)@.names + joined(
            args.instruction_count as nat,
            cell_names_at(old(cnf)@.variables, args.input_count as nat),
        ),
        final(cnf).wf(),
        network(views(luts@), args.input_count as nat, final(cnf)@),
{
    let ghost base = cnf@.variables;
    let ghost inputs = args.input_count as nat;
    let ghost n = args.instruction_count as nat;
    let ghost clause_part = cell_clauses_at(base, inputs);
    let ghost name_part = cell_names_at(base, inputs);
    let mut luts: Vec<LUT3> = Vec::new();
    assert(cnf@.clauses =~= old(cnf)@.clauses + joined(0, clause_part));
    assert(cnf@.names =~= old(cnf)@.names + joined(0, name_part));
    for index in 0..args.instruction_count
        invariant
            cnf.wf(),
            0 < args.input_count,
            args.input_count + args.instruction_count <= usize::MAX,
            inputs == args.input_count,
            n == args.instruction_count,
            base == old(cnf)@.variables,
            base + cells_variables(inputs, n) <= isize::MAX,
            clause_part == cell_clauses_at(base, inputs),
            name_part == cell_names_at(base, inputs),
            cnf@.variables == base + cells_variables(inputs, index as nat),
            cnf@.clauses == old(cnf)@.clauses + joined(index as nat, clause_part),
            cnf@.names == old(cnf)@.names + joined(index as nat, name_part),
            luts@.len() == index,
            forall|i: int| 0 <= i < index ==> (#[trigger] luts@[i])@ == cell_at(base, inputs, i),
    {
        proof {
            lemma_cells_variables_rise(inputs, (index + 1) as nat, n);
        }
        let lut = LUT3::new(cnf, index, args);
        luts.push(lut);
        proof {
            lemma_join_next(old(cnf)@.clauses, index as nat, clause_part);
            lemma_join_next(old(cnf)@.names, index as nat, name_part);
        }
    }
    proof {
        assert(views(luts@) =~= cells(base, inputs, n));
        assert forall|i: int| 0 <= i < n implies (#[trigger] views(luts@)[i]).wf() && views(
            luts@,
        )[i].width() == inputs + i && views(luts@)[i].owned_by(cnf@) by {
            lemma_cells_variables_rise(inputs, (i + 1) as nat, n);
            lemma_cell_owned(base + cells_variables(inputs, i as nat), (inputs + i) as nat, cnf@);
        }
    }
    luts
}

/// A network over a formula is a network over every formula with the same
/// or more variables.
pub proof fn lemma_network_more(cells: Seq<Cell>, inputs: nat, f: Formula, g: Formula)
    requires
        network(cells, inputs, f),
        f.variables <= g.variables,
    ensures
        network(cells, inputs, g),
{
    assert forall|i: int| 0 <= i < cells.len() implies (#[trigger] cells[i]).wf()
        && cells[i].width() == inputs + i && cells[i].owned_by(g) by {
        let c = cells[i];
        assert(c.wf() && c.owned_by(f));
        f.lemma_owns_all_more(g, c.sides[0]);
        f.lemma_owns_all_more(g, c.sides[1]);
        f.lemma_owns_all_more(g, c.sides[2]);
        f.lemma_owns_all_more(g, c.table);
    }
}

/// The choices of signal `signal` on every side of every table, table by
/// table.
pub open spec fn uses(cells: Seq<Cell>, signal: int) -> Seq<int> {
    grid(cells.len(), 3).map_values(|p: (int, int)| cells[p.0].sides[p.1][signal])
}

/// Adds the clause that some side of some table is fed by signal `signal`.
fn require_use(cnf: &mut CNF, luts: &Vec<LUT3>, args: &Args, signal: usize)
    requires
        old(cnf).wf(),
        network(views(luts@), args.input_count as nat, old(cnf)@),
        signal < args.input_count,
        luts@.len() * 3 <= usize::MAX,
    ensures
        final(cnf)@ == old(cnf)@.with_clause(uses(views(luts@), signal as int)),
        final(cnf).wf(),
{
    let ghost cells = views(luts@);
    let ghost wanted = uses(cells, signal as int);
    let pairs = index_grid(luts.len(), 3);
    let mut nodes: Vec<Variable> = Vec::new();
    for k in 0..pairs.len()
        invariant
            network(cells, args.input_count as nat, cnf@),
            cells == views(luts@),
            signal < args.input_count,
            positions(pairs@) == grid(luts@.len(), 3),
            wanted == uses(cells, signal as int),
            nodes@.len() == k,
            forall|j: int| 0 <= j < k ==> (#[trigger] nodes@[j])@ == wanted[j],
            forall|j: int| 0 <= j < k ==> cnf@.owns(#[trigger] nodes@[j]@),
    {
        let (i, side) = pairs[k];
        assert(positions(pairs@)[k as int] == (i as int, side as int));
        assert(cells[i as int].wf() && cells[i as int].owned_by(cnf@));
        assert(luts@[i as int]@ == cells[i as int]);
        let node = luts[i].input_node(side, signal).unwrap();
        assert(1 <= cells[i as int].sides[side as int][signal as int] <= cnf@.variables);
        nodes.push(node);
    }
    assert(indices(nodes@) =~= wanted);
    cnf.add_clause(Clause::of_variables(nodes.as_slice()));
}

/// How many variables the comparisons of the first `k` pairs of neighbouring
/// tables issue, in a network with `inputs` inputs.
pub open spec fn tails_variables(inputs: nat, k: nat) -> nat
    decreases k,
{
    if k == 0 {
        0
    } else {
        tails_variables(inputs, (k - 1) as nat) + comparator_variables(
            (inputs + k - 1) as nat,
            inputs + k,
        )
    }
}

/// The clauses by which the third side of table `i` is fed by a signal that
/// is at most that of the third side of table `i + 1`, as a function of `i`.
pub open spec fn tail_clauses_at(base: nat, cells: Seq<Cell>, inputs: nat) -> spec_fn(int) -> Seq<
    Seq<int>,
> {
    |i: int|
        less_than_equal_clauses(
            base + tails_variables(inputs, i as nat),
            cells[i].sides[2],
            cells[i + 1].sides[2],
        )
}

/// The more pairs, the more variables.
pub proof fn lemma_tails_variables_rise(inputs: nat, i: nat, j: nat)
    requires
        i <= j,
    ensures
        tails_variables(inputs, i) <= tails_variables(inputs, j),
    decreases j,
{
    if i < j {
        lemma_tails_variables_rise(inputs, i, (j - 1) as nat);
    }
}

/// Adds the constraints that order the tables by the signal of their third
/// side.
fn order_tails(cnf: &mut CNF, luts: &Vec<LUT3>, args: &Args)
    requires
        old(cnf).wf(),
        network(views(luts@), args.input_count as nat, old(cnf)@),
        0 < luts@.len(),
        old(cnf)@.variables + tails_variables(args.input_count as nat, (luts@.len() - 1) as nat)
            <= isize::MAX,
    ensures
        final(cnf)@ == old(cnf)@.with_variables(
            tails_variables(args.input_count as nat, (luts@.len() - 1) as nat),
        ).with_clauses(
            joined(
                (luts@.len() - 1) as nat,
                tail_clauses_at(old(cnf)@.variables, views(luts@), args.input_count as nat),
            ),
        ),
        final(cnf).wf(),
{
    let ghost cells = views(luts@);
    let ghost inputs = args.input_count as nat;
    let ghost base = cnf@.variables;
    let ghost part = tail_clauses_at(base, cells, inputs);
    let ghost pairs = (luts@.len() - 1) as nat;
    let windows = index_neighbours(luts.len());
    assert(windows@.len() == positions(windows@).len());
    assert(cnf@.clauses =~= old(cnf)@.clauses + joined(0, part));
    for k in 0..windows.len()
        invariant
            windows@.len() == pairs,
            cnf.wf(),
            network(cells, inputs, cnf@),
            cells == views(luts@),
            inputs == args.input_count,
            base == old(cnf)@.variables,
            pairs == luts@.len() - 1,
            part == tail_clauses_at(base, cells, inputs),
            positions(windows@) == neighbours(luts@.len()),
            base + tails_variables(inputs, pairs) <= isize::MAX,
            cnf@.variables == base + tails_variables(inputs, k as nat),
            cnf@.names == old(cnf)@.names,
            cnf@.clauses == old(cnf)@.clauses + joined(k as nat, part),
    {
        let (first, second) = windows[k];
        assert(positions(windows@)[k as int] == (first as int, second as int));
        assert(cells[first as int].wf() && cells[first as int].owned_by(cnf@));
        assert(cells[second as int].wf() && cells[second as int].owned_by(cnf@));
        assert(luts@[first as int]@ == cells[first as int]);
        assert(luts@[second as int]@ == cells[second as int]);
        proof {
            lemma_tails_variables_rise(inputs, (k + 1) as nat, pairs);
        }
        let ghost before = cnf@;
        cnf.less_than_equal(luts[first].side(2).as_slice(), luts[second].side(2).as_slice());
        proof {
            lemma_network_more(cells, inputs, before, cnf@);
            lemma_join_next(old(cnf)@.clauses, k as nat, part);
        }
    }
}

/// The choices of signal `signal` on every side of the tables `lo..hi`,
/// table by table.
pub open spec fn sources(cells: Seq<Cell>, lo: int, hi: int, signal: int) -> Seq<int> {
    Seq::new((3 * (hi - lo)) as nat, |k: int| cells[lo + k / 3].sides[k % 3][signal])
}

/// One clause for each side of table `instruction`: if the side is fed by
/// signal `signal`, some side of one of the tables `lo..=instruction` is fed
/// by the signal before it.
pub open spec fn rule(cells: Seq<Cell>, instruction: int, lo: int, signal: int) -> Seq<Seq<int>> {
    Seq::new(
        3,
        |side: int|
            sources(cells, lo, instruction + 1, signal - 1).push(
                -cells[instruction].sides[side][signal],
            ),
    )
}

/// The rules of table `instruction` for the inputs of the network, but for
/// the first two, as a function of the input's number less two. An input is
/// used only if the input before it is used by the same table or by one
/// before it.
pub open spec fn input_rules_at(cells: Seq<Cell>, instruction: int) -> spec_fn(int) -> Seq<
    Seq<int>,
> {
    |k: int| rule(cells, instruction, 0, k + 2)
}

/// The rules of table `instruction` for the outputs of the tables `1..`
/// before it, as a function of the table's number less one. The output of
/// table `k + 1` is used only if the output of table `k` is used by the same
/// table or by one of those after table `k + 1`.
pub open spec fn output_rules_at(cells: Seq<Cell>, inputs: nat, instruction: int) -> spec_fn(
    int,
) -> Seq<Seq<int>> {
    |k: int| rule(cells, instruction, k + 2, inputs + 1 + k)
}

/// `a - b`, or zero where `b` is the larger.
pub open spec fn less(a: nat, b: nat) -> nat {
    if a > b {
        (a - b) as nat
    } else {
        0
    }
}

/// The rules of table `instruction`, as a function of `instruction`: first
/// those for the inputs, then those for the outputs.
pub open spec fn order_clauses_at(cells: Seq<Cell>, inputs: nat) -> spec_fn(int) -> Seq<Seq<int>> {
    |instruction: int|
        joined(less(inputs, 2), input_rules_at(cells, instruction)) + joined(
            less(instruction as nat, 1),
            output_rules_at(cells, inputs, instruction),
        )
}

/// Collects the choices of signal `signal` of the tables `lo..hi`.
fn collect_sources(luts: &Vec<LUT3>, lo: usize, hi: usize, signal: usize) -> (before: Vec<Variable>)
    requires
        lo <= hi <= luts@.len(),
        forall|i: int| lo <= i < hi ==> (#[trigger] views(luts@)[i]).wf(),
        forall|i: int| lo <= i < hi ==> signal < (#[trigger] views(luts@)[i]).width(),
    ensures
        indices(before@) == sources(views(luts@), lo as int, hi as int, signal as int),
{
    let ghost cells = views(luts@);
    let ghost wanted = sources(cells, lo as int, hi as int, signal as int);
    let mut before: Vec<Variable> = Vec::new();
    for prev in lo..hi
        invariant
            lo <= hi <= luts@.len(),
            cells == views(luts@),
            wanted == sources(cells, lo as int, hi as int, signal as int),
            forall|i: int| lo <= i < hi ==> (#[trigger] cells[i]).wf(),
            forall|i: int| lo <= i < hi ==> signal < (#[trigger] cells[i]).width(),
            before@.len() == 3 * (prev - lo),
            forall|k: int| 0 <= k < before@.len() ==> (#[trigger] before@[k])@ == wanted[k],
    {
        for side_prev in 0..3usize
            invariant
                lo <= prev < hi <= luts@.len(),
                cells == views(luts@),
                wanted == sources(cells, lo as int, hi as int, signal as int),
                cells[prev as int].wf(),
                signal < cells[prev as int].width(),
                before@.len() == 3 * (prev - lo) + side_prev,
                forall|k: int| 0 <= k < before@.len() ==> (#[trigger] before@[k])@ == wanted[k],
        {
            assert(luts@[prev as int]@ == cells[prev as int]);
            let node = luts[prev].input_node(side_prev, signal).unwrap();
            before.push(node);
        }
    }
    assert(indices(before@) =~= wanted);
    before
}

/// Adds the rule of table `instruction` for signal `signal`, over the tables
/// `lo..=instruction`.
fn add_rule(
    cnf: &mut CNF,
    luts: &Vec<LUT3>,
    args: &Args,
    instruction: usize,
    lo: usize,
    signal: usize,
)
    requires
        old(cnf).wf(),
        network(views(luts@), args.input_count as nat, old(cnf)@),
        lo <= instruction < luts@.len(),
        0 < signal < args.input_count + lo,
        signal < args.input_count + instruction,
    ensures
        final(cnf)@ == old(cnf)@.with_clauses(
            rule(views(luts@), instruction as int, lo as int, signal as int),
        ),
        final(cnf).wf(),
{
    let ghost cells = views(luts@);
    let ghost inputs = args.input_count as nat;
    let ghost clauses = rule(cells, instruction as int, lo as int, signal as int);
    let ghost wanted = sources(cells, lo as int, instruction + 1, signal - 1);
    let count = luts.len();
    assert(cnf@.clauses =~= old(cnf)@.clauses + clauses.take(0));
    assert(cells[instruction as int].wf() && cells[instruction as int].owned_by(cnf@));
    assert(luts@[instruction as int]@ == cells[instruction as int]);
    assert forall|k: int| 0 <= k < wanted.len() implies 1 <= #[trigger] wanted[k]
        <= cnf@.variables by {
        let c = cells[lo + k / 3];
        assert(c.wf() && c.owned_by(cnf@));
        assert(1 <= c.sides[k % 3][signal - 1] <= cnf@.variables);
    }
    for side in 0..3usize
        invariant
            cnf.wf(),
            cells == views(luts@),
            inputs == args.input_count,
            network(cells, inputs, cnf@),
            lo <= instruction < luts@.len(),
            luts@.len() == count,
            0 < signal < inputs + lo,
            signal < inputs + instruction,
            cells[instruction as int].wf(),
            cells[instruction as int].owned_by(cnf@),
            luts@[instruction as int]@ == cells[instruction as int],
            wanted == sources(cells, lo as int, instruction + 1, signal - 1),
            cnf@.owns_all(wanted),
            clauses == rule(cells, instruction as int, lo as int, signal as int),
            cnf@.variables == old(cnf)@.variables,
            cnf@.names == old(cnf)@.names,
            cnf@.clauses == old(cnf)@.clauses + clauses.take(side as int),
    {
        // Node index `n`.
        let index = luts[instruction].input_node(side, signal).unwrap();
        assert(1 <= cells[instruction as int].sides[side as int][signal as int]
            <= cnf@.variables);
        // Collect all node indices `n - 1` in previous (and current) instruction.
        let before = collect_sources(luts, lo, instruction + 1, signal - 1);
        let clause = Clause::of_variables(before.as_slice()).with_negated(index);
        assert(clause@ =~= clauses[side as int]);
        cnf.add_clause(clause);
        proof {
            lemma_extend(old(cnf)@.clauses, clauses, side as int);
        }
    }
    assert(clauses.take(3) =~= clauses);
}

/// Adds the rules by which the inputs, but for the first, and the outputs of
/// the tables come into use in their order.
fn order_signals(cnf: &mut CNF, luts: &Vec<LUT3>, args: &Args)
    requires
        old(cnf).wf(),
        network(views(luts@), args.input_count as nat, old(cnf)@),
        luts@.len() == args.instruction_count,
        args.input_count + args.instruction_count <= usize::MAX,
    ensures
        final(cnf)@ == old(cnf)@.with_clauses(
            joined(
                args.instruction_count as nat,
                order_clauses_at(views(luts@), args.input_count as nat),
            ),
        ),
        final(cnf).wf(),
{
    let ghost cells = views(luts@);
    let ghost inputs = args.input_count as nat;
    let ghost part = order_clauses_at(cells, inputs);
    let ghost start = cnf@.clauses;
    assert(cnf@.clauses =~= start + joined(0, part));
    for instruction in 0..args.instruction_count
        invariant
            cnf.wf(),
            cells == views(luts@),
            inputs == args.input_count,
            network(cells, inputs, cnf@),
            luts@.len() == args.instruction_count,
            args.input_count + args.instruction_count <= usize::MAX,
            part == order_clauses_at(cells, inputs),
            start == old(cnf)@.clauses,
            cnf@.variables == old(cnf)@.variables,
            cnf@.names == old(cnf)@.names,
            cnf@.clauses == start + joined(instruction as nat, part),
    {
        let ghost done = cnf@.clauses;
        let ghost input_part = input_rules_at(cells, instruction as int);
        let ghost output_part = output_rules_at(cells, inputs, instruction as int);

        // Use inputs, except center, in order.
        assert(cnf@.clauses =~= done + joined(0, input_part));
        let mut input: usize = 2;
        while input < args.input_count
            invariant
                2 <= input,
                input <= args.input_count || input == 2,
                cnf.wf(),
                cells == views(luts@),
                inputs == args.input_count,
                network(cells, inputs, cnf@),
                instruction < luts@.len(),
                input_part == input_rules_at(cells, instruction as int),
                cnf@.variables == old(cnf)@.variables,
                cnf@.names == old(cnf)@.names,
                cnf@.clauses == done + joined((input - 2) as nat, input_part),
            decreases args.input_count - input,
        {
            add_rule(cnf, luts, args, instruction, 0, input);
            proof {
                lemma_join_next(done, (input - 2) as nat, input_part);
            }
            input += 1;
        }
        let ghost first = joined(less(inputs, 2), input_part);
        assert(cnf@.clauses == done + first);

        // Use intermediate results in order.
        assert(cnf@.clauses =~= done + first + joined(0, output_part));
        let mut output: usize = args.input_count + 1;
        while output < args.input_count + instruction
            invariant
                args.input_count < output,
                output <= args.input_count + instruction || output == args.input_count + 1,
                cnf.wf(),
                cells == views(luts@),
                inputs == args.input_count,
                network(cells, inputs, cnf@),
                instruction < luts@.len(),
                args.input_count + instruction <= usize::MAX,
                output_part == output_rules_at(cells, inputs, instruction as int),
                cnf@.variables == old(cnf)@.variables,
                cnf@.names == old(cnf)@.names,
                cnf@.clauses == done + first + joined((output - inputs - 1) as nat, output_part),
            decreases args.input_count + instruction - output,
        {
            add_rule(cnf, luts, args, instruction, output - args.input_count + 1, output);
            proof {
                lemma_join_next(done + first, (output - inputs - 1) as nat, output_part);
            }
            output += 1;
        }
        let ghost second = joined(less(instruction as nat, 1), output_part);
        assert(cnf@.clauses == done + first + second);
        proof {
            lemma_append_assoc(done, first, second);
            lemma_join_next(start, instruction as nat, part);
        }
    }
}

/// How many variables one excitation takes: one for each signal, and one
/// for each input of each table.
pub open spec fn excitation_variables(inputs: nat, n: nat) -> nat {
    inputs + n + 3 * n
}

/// One clause for each input of the network: the input's signal has the
/// value of its digit in `excitation`.
pub open spec fn pins(state: Seq<int>, inputs: nat, excitation: nat) -> Seq<Seq<int>> {
    Seq::new(
        inputs,
        |i: int|
            seq![
                if bit(excitation, i as nat) {
                    state[i]
                } else {
                    -state[i]
                },
            ],
    )
}

/// The signals of an excitation that starts from a formula of `base`
/// variables: first the inputs of the network, then the outputs of the
/// tables.
pub open spec fn signals(base: nat, cells: Seq<Cell>, inputs: nat) -> Seq<int> {
    fresh(base, inputs + cells.len())
}

/// The inputs of table `i` in such an excitation.
pub open spec fn inputs_of(base: nat, cells: Seq<Cell>, inputs: nat, i: int) -> Seq<int> {
    fresh((base + inputs + cells.len() + 3 * i) as nat, 3)
}

/// The clauses that wire table `i` into an excitation, as a function of `i`:
/// its output follows its truth table, and its inputs follow the signals
/// that feed them.
pub open spec fn wiring_at(base: nat, cells: Seq<Cell>, inputs: nat) -> spec_fn(int) -> Seq<
    Seq<int>,
> {
    |i: int|
        output_clauses(
            cells[i].table,
            inputs_of(base, cells, inputs, i),
            signals(base, cells, inputs)[inputs + i],
        ) + connection_clauses(
            cells[i],
            inputs_of(base, cells, inputs, i),
            signals(base, cells, inputs),
        )
}

/// The clauses of one excitation: the inputs are those of `excitation`, the
/// output of the last table is what the Game of Life asks for, and each table
/// is wired in.
#[verifier::opaque]
pub open spec fn excitation_clauses(
    base: nat,
    cells: Seq<Cell>,
    inputs: nat,
    excitation: nat,
) -> Seq<Seq<int>> {
    pins(signals(base, cells, inputs), inputs, excitation) + seq![
        seq![
            if lives(excitation) {
                signals(base, cells, inputs).last()
            } else {
                -signals(base, cells, inputs).last()
            },
        ],
    ] + joined(cells.len(), wiring_at(base, cells, inputs))
}

/// Adds the variables and clauses of one excitation of the network.
fn excite(cnf: &mut CNF, luts: &Vec<LUT3>, args: &Args, excitation: usize)
    requires
        old(cnf).wf(),
        network(views(luts@), args.input_count as nat, old(cnf)@),
        0 < args.input_count,
        0 < luts@.len() == args.instruction_count,
        args.input_count + args.instruction_count <= usize::MAX,
        old(cnf)@.variables + excitation_variables(
            args.input_count as nat,
            args.instruction_count as nat,
        ) <= isize::MAX,
    ensures
        final(cnf)@ == old(cnf)@.with_variables(
            excitation_variables(args.input_count as nat, args.instruction_count as nat),
        ).with_clauses(
            excitation_clauses(
                old(cnf)@.variables,
                views(luts@),
                args.input_count as nat,
                excitation as nat,
            ),
        ),
        final(cnf).wf(),
{
    let ghost base = cnf@.variables;
    let ghost cells = views(luts@);
    let ghost inputs = args.input_count as nat;
    let ghost n = args.instruction_count as nat;
    let ghost start = cnf@.clauses;
    let ghost given = cnf@;
    proof {
        reveal(excitation_clauses);
    }

    // Generate variables for every input and output.
    let state = cnf.new_variables(args.input_count + args.instruction_count);
    let ghost sigs = signals(base, cells, inputs);
    assert(indices(state@) == sigs);

    // Generate constraints so that the inputs match the excitation.
    let ghost pinned = pins(sigs, inputs, excitation as nat);
    let mut rest = excitation;
    assert(cnf@.clauses =~= start + pinned.take(0));
    for i in 0..args.input_count
        invariant
            cnf.wf(),
            inputs == args.input_count,
            sigs == indices(state@),
            cnf@.owns_all(sigs),
            state@.len() == args.input_count + args.instruction_count,
            pinned == pins(sigs, inputs, excitation as nat),
            forall|j: nat| #[trigger] bit(rest as nat, j) == bit(excitation as nat, (i + j) as nat),
            cnf@.variables == base + inputs + n,
            cnf@.names == old(cnf)@.names,
            cnf@.clauses == start + pinned.take(i as int),
    {
        let input = state[i];
        assert(input@ == sigs[i as int] && 1 <= sigs[i as int] <= cnf@.variables);
        assert(bit(rest as nat, 0) == bit(excitation as nat, i as nat));
        let clause = if rest % 2 == 1 {
            input.clause()
        } else {
            input.negated().clause()
        };
        assert(clause@ =~= pinned[i as int]);
        cnf.add_clause(clause);
        proof {
            lemma_extend(start, pinned, i as int);
            assert forall|j: nat| #[trigger] bit((rest / 2) as nat, j) == bit(
                excitation as nat,
                (i + 1 + j) as nat,
            ) by {
                assert(bit(rest as nat, j + 1) == bit(excitation as nat, (i + (j + 1)) as nat));
            }
        }
        rest = rest / 2;
    }
    assert(pinned.take(inputs as int) =~= pinned);

    // Generate constraint that the final output of the network is correct.
    let output = state[state.len() - 1];
    assert(output@ == sigs.last() && 1 <= sigs[sigs.len() - 1] <= cnf@.variables);
    let ghost wanted = seq![
        seq![
            if lives(excitation as nat) {
                sigs.last()
            } else {
                -sigs.last()
            },
        ],
    ];
    if game_of_life_step(excitation) {
        cnf.add_clause(output.clause());
    } else {
        cnf.add_clause(output.negated().clause());
    }
    assert(cnf@.clauses =~= start + pinned + wanted);

    let ghost part = wiring_at(base, cells, inputs);
    let ghost done = start + pinned + wanted;
    assert(cnf@.clauses =~= done + joined(0, part));
    proof {
        lemma_network_more(cells, inputs, given, cnf@);
    }
    for i in 0..args.instruction_count
        invariant
            cnf.wf(),
            cells == views(luts@),
            inputs == args.input_count,
            n == args.instruction_count,
            n == luts@.len(),
            network(cells, inputs, cnf@),
            sigs == indices(state@),
            sigs == signals(base, cells, inputs),
            cnf@.owns_all(sigs),
            state@.len() == args.input_count + args.instruction_count,
            part == wiring_at(base, cells, inputs),
            base + excitation_variables(inputs, n) <= isize::MAX,
            cnf@.variables == base + inputs + n + 3 * i,
            cnf@.names == old(cnf)@.names,
            cnf@.clauses == done + joined(i as nat, part),
    {
        let ghost before = cnf@;
        let input_0 = cnf.new_variable();
        let input_1 = cnf.new_variable();
        let input_2 = cnf.new_variable();
        let lut_inputs = [input_0, input_1, input_2];
        let ghost ins = inputs_of(base, cells, inputs, i as int);
        assert(indices(lut_inputs@) =~= ins);
        proof {
            lemma_network_more(cells, inputs, before, cnf@);
            before.lemma_owns_all_more(cnf@, sigs);
            assert(cells[i as int].wf() && cells[i as int].owned_by(cnf@));
            assert(luts@[i as int]@ == cells[i as int]);
            assert(state@[args.input_count + i]@ == sigs[inputs + i]);
            assert(1 <= sigs[inputs + i] <= cnf@.variables);
        }
        let ghost middle = cnf@.clauses;
        luts[i].constrain_output(cnf, lut_inputs, state[args.input_count + i]);
        luts[i].constrain_connections(cnf, lut_inputs, state.as_slice());
        proof {
            lemma_append_assoc(
                middle,
                output_clauses(cells[i as int].table, ins, sigs[inputs + i]),
                connection_clauses(cells[i as int], ins, sigs),
            );
            lemma_join_next(done, i as nat, part);
        }
    }
    proof {
        lemma_append_assoc(start, pinned + wanted, joined(n, part));
        lemma_append_assoc(start, pinned, wanted);
    }
}

/// The clauses of excitation `e`, as a function of `e`. The excitations
/// follow a formula of `base` variables, each with variables of its own.
pub open spec fn excitation_clauses_at(base: nat, cells: Seq<Cell>, inputs: nat) -> spec_fn(
    int,
) -> Seq<Seq<int>> {
    |e: int|
        excitation_clauses(
            (base + e * excitation_variables(inputs, cells.len())) as nat,
            cells,
            inputs,
            e as nat,
        )
}

/// The clause by which the last table is fed, on its third side, by the
/// table before it, if there is one.
pub open spec fn last_uses_previous(cells: Seq<Cell>, inputs: nat) -> Seq<Seq<int>> {
    if cells.len() > 1 {
        seq![seq![cells.last().sides[2][inputs + cells.len() - 2]]]
    } else {
        Seq::empty()
    }
}

/// How many variables the formula of a network with `inputs` inputs and `n`
/// tables has.
pub open spec fn generated_variables(inputs: nat, n: nat) -> nat {
    cells_variables(inputs, n) + tails_variables(inputs, less(n, 1)) + pow2(inputs)
        * excitation_variables(inputs, n)
}

/// The clauses that do not depend on an excitation: those of the tables, and
/// those that leave out networks which differ from another only in the order
/// of their parts.
#[verifier::opaque]
pub open spec fn topology_clauses(inputs: nat, n: nat) -> Seq<Seq<int>> {
    let net = cells(0, inputs, n);
    joined(n, cell_clauses_at(0, inputs)) + seq![uses(net, 0)] + seq![uses(net, inputs - 1)]
        + last_uses_previous(net, inputs) + joined(
        less(n, 1),
        tail_clauses_at(cells_variables(inputs, n), net, inputs),
    ) + joined(n, order_clauses_at(net, inputs))
}

/// The formula of a network with `inputs` inputs and `n` tables: satisfied
/// by the networks that compute the rule of the Game of Life on the first
/// `inputs` cells of a neighbourhood.
#[verifier::opaque]
pub open spec fn generated(inputs: nat, n: nat) -> Formula {
    Formula {
        variables: generated_variables(inputs, n),
        clauses: topology_clauses(inputs, n) + joined(
            pow2(inputs),
            excitation_clauses_at(
                cells_variables(inputs, n) + tails_variables(inputs, less(n, 1)),
                cells(0, inputs, n),
                inputs,
            ),
        ),
        names: joined(n, cell_names_at(0, inputs)),
    }
}

/// Two to the power of `inputs`.
fn excitation_count(inputs: usize) -> (count: usize)
    requires
        pow2(inputs as nat) <= usize::MAX,
    ensures
        count == pow2(inputs as nat),
{
    let mut count: usize = 1;
    proof {
        vstd::arithmetic::power2::lemma2_to64();
    }
    for i in 0..inputs
        invariant
            count == pow2(i as nat),
            pow2(inputs as nat) <= usize::MAX,
    {
        proof {
            vstd::arithmetic::power2::lemma_pow2_unfold((i + 1) as nat);
            if i + 1 < inputs {
                vstd::arithmetic::power2::lemma_pow2_strictly_increases(
                    (i + 1) as nat,
                    inputs as nat,
                );
            }
        }
        count = count * 2;
    }
    count
}

/// Builds the formula that asks for a network of `args.instruction_count`
/// lookup tables which computes, from the first `args.input_count` cells of
/// a neighbourhood, whether the cell in its middle is alive in the next state
/// of the Game of Life.
///
/// The result is [`generated`] of the two counts and of nothing else, so two
/// calls with the same counts give the same formula and the same text. The
/// variables of the formula must stay within what this machine can number,
/// which [`budget::fits`] tests. What the formula means does not depend on
/// that limit: [`meaning::lemma_generated_sound`] and
/// [`network::lemma_generated_describes`] show it of `generated` itself, for
/// all positive counts.
pub fn generate_game_of_life_cnf(args: &Args) -> (cnf: CNF)
    requires
        0 < args.input_count,
        0 < args.instruction_count,
        generated_variables(args.input_count as nat, args.instruction_count as nat) <= isize::MAX,
    ensures
        cnf@ == generated(args.input_count as nat, args.instruction_count as nat),
        cnf.wf(),
        computes_life(cnf@.clauses, args.input_count as nat, args.instruction_count as nat),
        describes_valid_networks(
            cnf@.clauses,
            args.input_count as nat,
            args.instruction_count as nat,
        ),
{
    let ghost inputs = args.input_count as nat;
    let ghost n = args.instruction_count as nat;
    let ghost per = excitation_variables(inputs, n);
    proof {
        reveal(generated);
        reveal(topology_clauses);
        vstd::arithmetic::power2::lemma_pow2_pos(inputs);
        assert(per <= pow2(inputs) * per) by (nonlinear_arith)
            requires
                pow2(inputs) >= 1,
        ;
        assert(pow2(inputs) <= pow2(inputs) * per) by (nonlinear_arith)
            requires
                per >= 1,
        ;
        lemma_cells_variables_floor(inputs, n);
    }
    let mut cnf = CNF::default();
    let luts = new_cells(&mut cnf, args);
    let ghost net = views(luts@);
    let ghost tables = joined(n, cell_clauses_at(0, inputs));
    assert(cnf@.clauses =~= tables);
    assert(cnf@.names =~= joined(n, cell_names_at(0, inputs)));

    // Prune: Center must be used.
    require_use(&mut cnf, &luts, args, 0);
    // Prune: Last input must be used.
    require_use(&mut cnf, &luts, args, args.input_count - 1);
    // Prune: Last instruction must use penultimate output.
    if args.instruction_count > 1 {
        assert(net[n - 1].wf() && net[n - 1].owned_by(cnf@));
        assert(luts@[n - 1]@ == net[n - 1]);
        let node = luts[args.instruction_count - 1].input_node(
            2,
            args.input_count + args.instruction_count - 2,
        ).unwrap();
        assert(1 <= net[n - 1].sides[2][inputs + n - 2] <= cnf@.variables);
        cnf.add_clause(node.clause());
    }
    let ghost pruned = tables + seq![uses(net, 0)] + seq![uses(net, inputs - 1)]
        + last_uses_previous(net, inputs);
    assert(cnf@.clauses =~= pruned);

    // Prune: Tail ordering.
    let ghost before = cnf@;
    order_tails(&mut cnf, &luts, args);
    proof {
        lemma_network_more(net, inputs, before, cnf@);
    }
    // Prune: Use inputs, except center, and intermediate results in order.
    order_signals(&mut cnf, &luts, args);
    let ghost topology = topology_clauses(inputs, n);
    proof {
        reveal(topology_clauses);
    }
    assert(cnf@.clauses == topology);

    // Add variables and constraints for every possible excitation to the network.
    let ghost base = cnf@.variables;
    let ghost part = excitation_clauses_at(base, net, inputs);
    let count = excitation_count(args.input_count);
    assert(cnf@.clauses =~= topology + joined(0, part));
    assert(0 * per == 0) by (nonlinear_arith);
    for excitation in 0..count
        invariant
            cnf.wf(),
            0 < args.input_count,
            0 < luts@.len() == args.instruction_count,
            args.input_count + args.instruction_count <= usize::MAX,
            net == views(luts@),
            inputs == args.input_count,
            n == args.instruction_count,
            per == excitation_variables(inputs, n),
            network(net, inputs, cnf@),
            count == pow2(inputs),
            base + count * per <= isize::MAX,
            part == excitation_clauses_at(base, net, inputs),
            cnf@.variables == base + excitation * per,
            cnf@.names == joined(n, cell_names_at(0, inputs)),
            cnf@.clauses == topology + joined(excitation as nat, part),
    {
        proof {
            assert((excitation + 1) * per == excitation * per + per) by (nonlinear_arith);
            assert((excitation + 1) * per <= count * per) by (nonlinear_arith)
                requires
                    excitation + 1 <= count,
                    per >= 0,
            ;
        }
        let ghost before = cnf@;
        excite(&mut cnf, &luts, args, excitation);
        proof {
            lemma_network_more(net, inputs, before, cnf@);
            lemma_join_next(topology, excitation as nat, part);
        }
    }
    proof {
        reveal(generated);
        lemma_generated_computes_life(inputs, n);
        lemma_generated_describes(inputs, n);
    }
    cnf
}

/// Every assignment that satisfies `clauses` describes a network that
/// computes the rule of the Game of Life: for every excitation of its
/// `inputs` inputs, the last of its `n` tables puts out whether the cell is
/// alive in the next state.
pub open spec fn computes_life(clauses: Seq<Seq<int>>, inputs: nat, n: nat) -> bool {
    forall|a: spec_fn(int) -> bool, excitation: nat|
        #[trigger] satisfies(a, clauses) && excitation < pow2(inputs) ==> run(
            a,
            cells(0, inputs, n),
            inputs,
            excitation,
            n,
        ).last() == #[trigger] lives(excitation)
}

/// The formula of a network is satisfied only by networks that compute the
/// rule of the Game of Life.
pub proof fn lemma_generated_computes_life(inputs: nat, n: nat)
    requires
        0 < inputs,
        0 < n,
    ensures
        computes_life(generated(inputs, n).clauses, inputs, n),
{
    assert forall|a: spec_fn(int) -> bool, excitation: nat|
        #[trigger] satisfies(a, generated(inputs, n).clauses) && excitation < pow2(
            inputs,
        ) implies run(a, cells(0, inputs, n), inputs, excitation, n).last() == #[trigger] lives(
        excitation,
    ) by {
        lemma_generated_sound(a, inputs, n, excitation);
    }
}

/// The formula depends on the two counts alone: two formulas made for the
/// same counts are the same formula, and are written out as the same text.
pub proof fn lemma_generated_once(first: CNF, second: CNF, inputs: nat, n: nat)
    requires
        first@ == generated(inputs, n),
        second@ == generated(inputs, n),
    ensures
        first@ == second@,
        dimacs(first@) == dimacs(second@),
{
}

/// Each table issues more than three variables.
pub proof fn lemma_cells_variables_floor(inputs: nat, n: nat)
    ensures
        3 * n <= cells_variables(inputs, n),
    decreases n,
{
    if n > 0 {
        lemma_cells_variables_floor(inputs, (n - 1) as nat);
    }
}

} // verus!
