//! One lookup table of the network: which signal feeds each of its three
//! sides, and what it puts out for each of the eight values of its inputs.

use crate::Args;
use crate::cardinality::{exactly_once_clauses, exactly_once_variables};
use crate::cnf::{indices, Formula, Variable, CNF};
use crate::comparator::{comparator_variables, less_than_equal_clauses, width};
use crate::game_of_life::fidelity::{
    connected, fed_in_order, lemma_cell, lemma_connections, lemma_output, spelled,
};
use crate::logic::{
    agree, fresh, interleaved, joined, lemma_append_assoc, lemma_extend, lemma_join_next,
    lemma_satisfies_concat, satisfies,
};
use crate::text::{decimal, push_decimal};
use vstd::prelude::*;
use vstd::string::StringExecFns;

verus! {

/// A lookup table as a mathematical value. `sides[s][j]` is the variable
/// that says that side `s` is fed by signal `j`; `table[i]` is the output for
/// the inputs whose bits spell `i`, the first side being the least
/// significant.
pub struct Cell {
    pub sides: Seq<Seq<int>>,
    pub table: Seq<int>,
}

/// A lookup table with three inputs.
pub struct LUT3 {
    /// Nodes that connect to the input sides.
    input_nodes: Vec<Vec<Variable>>,
    /// Truth table used by the instruction.
    table: Vec<Variable>,
}

impl View for LUT3 {
    type V = Cell;

    closed spec fn view(&self) -> Cell {
        Cell {
            sides: self.input_nodes@.map_values(|side: Vec<Variable>| indices(side@)),
            table: indices(self.table@),
        }
    }
}

impl Cell {
    /// Three sides that choose among the same signals, and a table of eight.
    pub open spec fn wf(self) -> bool {
        &&& self.sides.len() == 3
        &&& self.sides[1].len() == self.sides[0].len()
        &&& self.sides[2].len() == self.sides[0].len()
        &&& self.table.len() == 8
    }

    /// How many signals each side chooses among.
    pub open spec fn width(self) -> nat {
        self.sides[0].len()
    }

    /// All variables of the cell are variables of `f`.
    pub open spec fn owned_by(self, f: Formula) -> bool {
        &&& f.owns_all(self.sides[0])
        &&& f.owns_all(self.sides[1])
        &&& f.owns_all(self.sides[2])
        &&& f.owns_all(self.table)
    }
}

/// The name of the variable that says that side `side` of table `index` is
/// fed by signal `source`.
pub open spec fn selector_name(index: nat, side: nat, source: nat) -> Seq<char> {
    "lut_"@ + decimal(index) + "_side_"@ + decimal(side) + "_connection_"@ + decimal(source)
}

/// The name of the variable that is entry `entry` of the truth table of table
/// `index`.
pub open spec fn table_name(index: nat, entry: nat) -> Seq<char> {
    "lut_"@ + decimal(index) + "_table_"@ + decimal(entry)
}

/// The variables after the first `base`, named as the choices of one side.
pub open spec fn side_names(base: nat, index: nat, side: nat, m: nat) -> Seq<(int, Seq<char>)> {
    Seq::new(m, |j: int| (base + 1 + j, selector_name(index, side, j as nat)))
}

/// The variables after the first `base`, named as the entries of a truth
/// table.
pub open spec fn table_names(base: nat, index: nat) -> Seq<(int, Seq<char>)> {
    Seq::new(8, |i: int| (base + 1 + i, table_name(index, i as nat)))
}

/// The names that a new table gives to its variables.
#[verifier::opaque]
pub open spec fn cell_names(base: nat, index: nat, m: nat) -> Seq<(int, Seq<char>)> {
    side_names(base, index, 0, m) + side_names(base + m, index, 1, m) + side_names(
        base + 2 * m,
        index,
        2,
        m,
    ) + table_names(base + 3 * m, index)
}

/// The table that is made from a formula of `base` variables, with `m`
/// signals to choose from on each side.
pub open spec fn cell(base: nat, m: nat) -> Cell {
    Cell {
        sides: seq![fresh(base, m), fresh(base + m, m), fresh(base + 2 * m, m)],
        table: fresh(base + 3 * m, 8),
    }
}

/// How many variables a new table issues: its own, and those of its
/// constraints.
pub open spec fn cell_variables(m: nat) -> nat {
    3 * m + 8 + 3 * exactly_once_variables(m) + 2 * comparator_variables(m, m)
}

/// The clauses of a new table: each side is fed by exactly one signal, and
/// the signal of each side is at most that of the next.
#[verifier::opaque]
pub open spec fn cell_clauses(base: nat, m: nat) -> Seq<Seq<int>> {
    let c = cell(base, m);
    let b = base + 3 * m + 8;
    let e = exactly_once_variables(m);
    let k = comparator_variables(m, m);
    exactly_once_clauses(b, c.sides[0]) + exactly_once_clauses(b + e, c.sides[1])
        + exactly_once_clauses(b + 2 * e, c.sides[2]) + less_than_equal_clauses(
        b + 3 * e,
        c.sides[0],
        c.sides[1],
    ) + less_than_equal_clauses(b + 3 * e + k, c.sides[1], c.sides[2])
}

/// The literal of `input` in the row of a truth table: asserted where the
/// row has a zero for it, denied where it has a one.
pub open spec fn row_literal(input: int, one: bool) -> int {
    if one {
        -input
    } else {
        input
    }
}

/// The first four literals of both clauses of row `i`: they are all false
/// exactly when the three inputs spell `i`.
pub open spec fn row(inputs: Seq<int>, i: int) -> Seq<int> {
    seq![
        row_literal(inputs[2], (i / 4) % 2 == 1),
        row_literal(inputs[1], (i / 2) % 2 == 1),
        row_literal(inputs[0], i % 2 == 1),
    ]
}

/// Two clauses for each row of the truth table: if the inputs spell the
/// row's number, the output equals the row's entry.
#[verifier::opaque]
pub open spec fn output_clauses(table: Seq<int>, inputs: Seq<int>, output: int) -> Seq<Seq<int>> {
    interleaved(
        8,
        |i: int| row(inputs, i).push(output).push(-table[i]),
        |i: int| row(inputs, i).push(-output).push(table[i]),
    )
}

/// How many signals can feed a side of `m` choices from a state of `n`
/// signals.
pub open spec fn reach(m: nat, n: nat) -> nat {
    if n < m {
        n
    } else {
        m
    }
}

/// Two clauses for each signal that can feed the side: if it does, the
/// side's input equals the signal.
#[verifier::opaque]
pub open spec fn side_connections(nodes: Seq<int>, input: int, state: Seq<int>) -> Seq<Seq<int>> {
    interleaved(
        reach(nodes.len(), state.len()),
        |i: int| seq![-nodes[i], state[i], -input],
        |i: int| seq![-nodes[i], -state[i], input],
    )
}

/// The connections of one side, as a function of the side.
pub open spec fn connection_part(c: Cell, inputs: Seq<int>, state: Seq<int>) -> spec_fn(int) -> Seq<
    Seq<int>,
> {
    |side: int| side_connections(c.sides[side], inputs[side], state)
}

/// The connections of the three sides, one side after the other.
pub open spec fn connection_clauses(c: Cell, inputs: Seq<int>, state: Seq<int>) -> Seq<Seq<int>> {
    joined(3, connection_part(c, inputs, state))
}

/// The name of a choice of a side.
fn selector_name_of(index: usize, side: usize, source: usize) -> (name: String)
    ensures
        name@ == selector_name(index as nat, side as nat, source as nat),
{
    let mut name = String::from_str("lut_");
    push_decimal(&mut name, index);
    name.append("_side_");
    push_decimal(&mut name, side);
    name.append("_connection_");
    push_decimal(&mut name, source);
    name
}

/// The name of an entry of a truth table.
fn table_name_of(index: usize, entry: usize) -> (name: String)
    ensures
        name@ == table_name(index as nat, entry as nat),
{
    let mut name = String::from_str("lut_");
    push_decimal(&mut name, index);
    name.append("_table_");
    push_decimal(&mut name, entry);
    name
}

/// Issues the variables of one side, one for each signal that can feed it.
fn new_side(cnf: &mut CNF, index: usize, side: usize, width: usize) -> (nodes: Vec<Variable>)
    requires
        old(cnf).wf(),
        old(cnf)@.variables + width <= isize::MAX,
    ensures
        final(cnf)@ == old(cnf)@.with_names(
            side_names(old(cnf)@.variables, index as nat, side as nat, width as nat),
        ),
        indices(nodes@) == fresh(old(cnf)@.variables, width as nat),
        nodes@.len() == width,
        final(cnf).wf(),
        final(cnf)@.owns_all(indices(nodes@)),
{
    let ghost base = cnf@.variables;
    let ghost names = side_names(base, index as nat, side as nat, width as nat);
    let mut nodes: Vec<Variable> = Vec::new();
    assert(cnf@.names =~= old(cnf)@.names + names.take(0));
    for j in 0..width
        invariant
            cnf.wf(),
            base == old(cnf)@.variables,
            base + width <= isize::MAX,
            names == side_names(base, index as nat, side as nat, width as nat),
            cnf@.variables == base + j,
            cnf@.clauses == old(cnf)@.clauses,
            cnf@.names == old(cnf)@.names + names.take(j as int),
            nodes@.len() == j,
            forall|k: int| 0 <= k < j ==> (#[trigger] nodes@[k])@ == base + 1 + k,
    {
        let v = cnf.new_named_variable(selector_name_of(index, side, j));
        nodes.push(v);
        proof {
            lemma_extend(old(cnf)@.names, names, j as int);
        }
    }
    assert(names.take(width as int) =~= names);
    assert(indices(nodes@) =~= fresh(base, width as nat));
    nodes
}

/// Issues the variables of a truth table.
fn new_table(cnf: &mut CNF, index: usize) -> (table: Vec<Variable>)
    requires
        old(cnf).wf(),
        old(cnf)@.variables + 8 <= isize::MAX,
    ensures
        final(cnf)@ == old(cnf)@.with_names(table_names(old(cnf)@.variables, index as nat)),
        indices(table@) == fresh(old(cnf)@.variables, 8),
        table@.len() == 8,
        final(cnf).wf(),
        final(cnf)@.owns_all(indices(table@)),
{
    let ghost base = cnf@.variables;
    let ghost names = table_names(base, index as nat);
    let mut table: Vec<Variable> = Vec::new();
    assert(cnf@.names =~= old(cnf)@.names + names.take(0));
    for i in 0..8usize
        invariant
            cnf.wf(),
            base == old(cnf)@.variables,
            base + 8 <= isize::MAX,
            names == table_names(base, index as nat),
            cnf@.variables == base + i,
            cnf@.clauses == old(cnf)@.clauses,
            cnf@.names == old(cnf)@.names + names.take(i as int),
            table@.len() == i,
            forall|k: int| 0 <= k < i ==> (#[trigger] table@[k])@ == base + 1 + k,
    {
        let v = cnf.new_named_variable(table_name_of(index, i));
        table.push(v);
        proof {
            lemma_extend(old(cnf)@.names, names, i as int);
        }
    }
    assert(names.take(8) =~= names);
    assert(indices(table@) =~= fresh(base, 8));
    table
}

impl LUT3 {
    /// Makes table number `index` of a network: issues its variables, each
    /// under its name, and constrains each side to be fed by exactly one
    /// signal, which is at most the signal of the next side. The table can
    /// be fed by the inputs of the network and by the tables before it. Two
    /// sides may be fed by the same signal, and the truth table is left
    /// free.
    pub fn new(cnf: &mut CNF, index: usize, args: &Args) -> (lut: LUT3)
        requires
            old(cnf).wf(),
            0 < args.input_count + index <= usize::MAX,
            old(cnf)@.variables + cell_variables((args.input_count + index) as nat) <= isize::MAX,
        ensures
            lut@ == cell(old(cnf)@.variables, (args.input_count + index) as nat),
            final(cnf)@.variables == old(cnf)@.variables + cell_variables(
                (args.input_count + index) as nat,
            ),
            final(cnf)@.clauses == old(cnf)@.clauses + cell_clauses(
                old(cnf)@.variables,
                (args.input_count + index) as nat,
            ),
            final(cnf)@.names == old(cnf)@.names + cell_names(
                old(cnf)@.variables,
                index as nat,
                (args.input_count + index) as nat,
            ),
            final(cnf).wf(),
            forall|a: spec_fn(int) -> bool| #[trigger]
                satisfies(a, final(cnf)@.clauses) ==> satisfies(a, old(cnf)@.clauses)
                    && fed_in_order(a, lut@),
            forall|a: spec_fn(int) -> bool| #[trigger]
                satisfies(a, old(cnf)@.clauses) && fed_in_order(a, lut@) ==> exists|
                    b: spec_fn(int) -> bool,
                | #[trigger]
                    agree(
                        a,
                        b,
                        old(cnf)@.variables + 3 * (args.input_count + index) as nat + 8,
                    ) && satisfies(b, final(cnf)@.clauses),
    {
        proof {
            lemma_cell(cnf@, (args.input_count + index) as nat);
        }
        let width = args.input_count + index;
        // Generate variables for input nodes. Multiple inputs are possible for each side.
        // Note that we can only access inputs that come before this instruction.
        // Generate variables for the truth table of this instruction.
        let lut = LUT3::issue(cnf, index, width);
        // Generate constraint that each side must have exactly one connection.
        // Prune: Input nodes must be ordered.
        lut.constrain_sides(cnf, Ghost(old(cnf)@.variables));
        lut
    }

    /// Issues the variables of table number `index`, each under its name:
    /// the choices of its three sides among `width` signals, and its truth
    /// table.
    fn issue(cnf: &mut CNF, index: usize, width: usize) -> (lut: LUT3)
        requires
            old(cnf).wf(),
            old(cnf)@.variables + 3 * width + 8 <= isize::MAX,
        ensures
            lut@ == cell(old(cnf)@.variables, width as nat),
            final(cnf)@.variables == old(cnf)@.variables + 3 * width + 8,
            final(cnf)@.clauses == old(cnf)@.clauses,
            final(cnf)@.names == old(cnf)@.names + cell_names(
                old(cnf)@.variables,
                index as nat,
                width as nat,
            ),
            final(cnf).wf(),
    {
        let ghost base = cnf@.variables;
        let ghost named = cnf@.names;
        let ghost m = width as nat;
        proof {
            reveal(cell_names);
        }
        let side_0 = new_side(cnf, index, 0, width);
        let side_1 = new_side(cnf, index, 1, width);
        let side_2 = new_side(cnf, index, 2, width);
        let table = new_table(cnf, index);
        proof {
            let n0 = side_names(base, index as nat, 0, m);
            let n1 = side_names(base + m, index as nat, 1, m);
            let n2 = side_names(base + 2 * m, index as nat, 2, m);
            let n3 = table_names(base + 3 * m, index as nat);
            lemma_append_assoc(named, n0, n1);
            lemma_append_assoc(named, n0 + n1, n2);
            lemma_append_assoc(named, n0 + n1 + n2, n3);
        }
        let mut input_nodes: Vec<Vec<Variable>> = Vec::new();
        input_nodes.push(side_0);
        input_nodes.push(side_1);
        input_nodes.push(side_2);
        let lut = LUT3 { input_nodes, table };
        assert(lut@.sides =~= cell(base, m).sides);
        lut
    }

    /// Constrains each side of a table whose variables were just issued to
    /// be fed by exactly one signal, and the signal of each side to be at
    /// most that of the next. `base` is the number of variables before those
    /// of the table.
    fn constrain_sides(&self, cnf: &mut CNF, Ghost(base): Ghost<nat>)
        requires
            old(cnf).wf(),
            0 < self@.width(),
            self@ == cell(base, self@.width()),
            old(cnf)@.variables == base + 3 * self@.width() + 8,
            base + cell_variables(self@.width()) <= isize::MAX,
        ensures
            final(cnf)@.variables == base + cell_variables(self@.width()),
            final(cnf)@.clauses == old(cnf)@.clauses + cell_clauses(base, self@.width()),
            final(cnf)@.names == old(cnf)@.names,
            final(cnf).wf(),
    {
        let ghost start = cnf@.clauses;
        let ghost m = self@.width();
        let ghost c = cell(base, m);
        let ghost e = exactly_once_variables(m);
        let ghost k = comparator_variables(m, m);
        let ghost b = cnf@.variables;
        let ghost before = cnf@;
        proof {
            reveal(cell_clauses);
            assert(cnf@.owns_all(c.sides[0]));
            assert(cnf@.owns_all(c.sides[1]));
            assert(cnf@.owns_all(c.sides[2]));
            assert(self@.sides.len() == 3);
            assert(self.input_nodes@.len() == 3);
            assert(self@.sides[0] == indices(self.input_nodes@[0]@));
            assert(self@.sides[1] == indices(self.input_nodes@[1]@));
            assert(self@.sides[2] == indices(self.input_nodes@[2]@));
            assert(self.input_nodes@[0]@.len() == indices(self.input_nodes@[0]@).len());
            assert(self.input_nodes@[1]@.len() == indices(self.input_nodes@[1]@).len());
            assert(self.input_nodes@[2]@.len() == indices(self.input_nodes@[2]@).len());
        }
        cnf.exactly_once(self.input_nodes[0].as_slice());
        proof {
            before.lemma_owns_all_more(cnf@, c.sides[1]);
        }
        cnf.exactly_once(self.input_nodes[1].as_slice());
        proof {
            before.lemma_owns_all_more(cnf@, c.sides[2]);
        }
        cnf.exactly_once(self.input_nodes[2].as_slice());
        proof {
            before.lemma_owns_all_more(cnf@, c.sides[0]);
            before.lemma_owns_all_more(cnf@, c.sides[1]);
        }
        let ghost once_0 = exactly_once_clauses(b, c.sides[0]);
        let ghost once_1 = exactly_once_clauses(b + e, c.sides[1]);
        let ghost once_2 = exactly_once_clauses(b + 2 * e, c.sides[2]);
        proof {
            lemma_append_assoc(start, once_0, once_1);
            lemma_append_assoc(start, once_0 + once_1, once_2);
        }
        cnf.less_than_equal(self.input_nodes[0].as_slice(), self.input_nodes[1].as_slice());
        proof {
            before.lemma_owns_all_more(cnf@, c.sides[1]);
            before.lemma_owns_all_more(cnf@, c.sides[2]);
        }
        cnf.less_than_equal(self.input_nodes[1].as_slice(), self.input_nodes[2].as_slice());
        let ghost less_0 = less_than_equal_clauses(b + 3 * e, c.sides[0], c.sides[1]);
        let ghost less_1 = less_than_equal_clauses(b + 3 * e + k, c.sides[1], c.sides[2]);
        proof {
            lemma_append_assoc(start, once_0 + once_1 + once_2, less_0);
            lemma_append_assoc(start, once_0 + once_1 + once_2 + less_0, less_1);
        }
    }

    /// Ties the input of one side to the signal that feeds it.
    fn connect_side(&self, cnf: &mut CNF, side: usize, input: Variable, state: &[Variable])
        requires
            old(cnf).wf(),
            self@.wf(),
            self@.owned_by(old(cnf)@),
            side < 3,
            old(cnf)@.owns(input@),
            old(cnf)@.owns_all(indices(state@)),
        ensures
            final(cnf)@ == old(cnf)@.with_clauses(
                side_connections(self@.sides[side as int], input@, indices(state@)),
            ),
            final(cnf).wf(),
    {
        let ghost nodes = self@.sides[side as int];
        let ghost signals = indices(state@);
        let ghost clauses = side_connections(nodes, input@, signals);
        let ghost start = cnf@.clauses;
        proof {
            reveal(side_connections);
        }
        let index = self.input_nodes[0].len();
        let count = if state.len() < index {
            state.len()
        } else {
            index
        };
        assert(cnf@.clauses =~= start + clauses.take(0));
        for i in 0..count
            invariant
                cnf.wf(),
                self@.wf(),
                side < 3,
                cnf@.owns(input@),
                cnf@.owns_all(signals),
                cnf@.owns_all(nodes),
                nodes == self@.sides[side as int],
                signals == indices(state@),
                count == reach(nodes.len(), signals.len()),
                clauses == interleaved(
                    count as nat,
                    |i: int| seq![-nodes[i], signals[i], -input@],
                    |i: int| seq![-nodes[i], -signals[i], input@],
                ),
                cnf@.variables == old(cnf)@.variables,
                cnf@.names == old(cnf)@.names,
                start == old(cnf)@.clauses,
                cnf@.clauses == start + clauses.take(2 * i),
        {
            let signal = state[i];
            let input_node = self.input_nodes[side][i];
            assert(signal@ == signals[i as int] && input_node@ == nodes[i as int]);
            assert(1 <= signals[i as int] <= cnf@.variables && 1 <= nodes[i as int]
                <= cnf@.variables);
            let first = input_node.negated().or(signal).with_negated(input);
            assert(first@ =~= clauses[2 * i]);
            cnf.add_clause(first);
            let second = input_node.negated().or_not(signal).with_variable(input);
            assert(second@ =~= clauses[2 * i + 1]);
            cnf.add_clause(second);
            proof {
                lemma_extend(start, clauses, 2 * i);
                lemma_extend(start, clauses, 2 * i + 1);
            }
        }
        assert(clauses.take(2 * count) =~= clauses);
    }

    /// Ties the input of each side to the signal that feeds it: where the
    /// side is fed by signal `i`, its input `lut_inputs[side]` has the value
    /// of `state[i]`.
    pub fn constrain_connections(
        &self,
        cnf: &mut CNF,
        lut_inputs: [Variable; 3],
        state: &[Variable],
    )
        requires
            old(cnf).wf(),
            self@.wf(),
            self@.owned_by(old(cnf)@),
            old(cnf)@.owns_all(indices(lut_inputs@)),
            old(cnf)@.owns_all(indices(state@)),
        ensures
            final(cnf)@ == old(cnf)@.with_clauses(
                connection_clauses(self@, indices(lut_inputs@), indices(state@)),
            ),
            final(cnf).wf(),
            forall|a: spec_fn(int) -> bool| #[trigger]
                satisfies(a, final(cnf)@.clauses) <==> satisfies(a, old(cnf)@.clauses) && (forall|
                    side: int,
                |
                    0 <= side < 3 ==> connected(
                        a,
                        #[trigger] self@.sides[side],
                        indices(lut_inputs@)[side],
                        indices(state@),
                    )),
    {
        let ghost inputs = indices(lut_inputs@);
        proof {
            let added = connection_clauses(self@, inputs, indices(state@));
            assert forall|a: spec_fn(int) -> bool| #[trigger]
                satisfies(a, old(cnf)@.clauses + added) <==> satisfies(a, old(cnf)@.clauses) && (
                forall|side: int|
                    0 <= side < 3 ==> connected(
                        a,
                        #[trigger] self@.sides[side],
                        inputs[side],
                        indices(state@),
                    )) by {
                lemma_satisfies_concat(a, old(cnf)@.clauses, added);
                lemma_connections(a, self@, inputs, indices(state@), old(cnf)@.variables);
            }
        }
        let ghost signals = indices(state@);
        let ghost part = connection_part(self@, inputs, signals);
        let ghost start = cnf@.clauses;
        assert(cnf@.clauses =~= start + joined(0, part));
        for side in 0..3usize
            invariant
                cnf.wf(),
                self@.wf(),
                self@.owned_by(cnf@),
                cnf@.owns_all(inputs),
                cnf@.owns_all(signals),
                inputs == indices(lut_inputs@),
                signals == indices(state@),
                part == connection_part(self@, inputs, signals),
                cnf@.variables == old(cnf)@.variables,
                cnf@.names == old(cnf)@.names,
                start == old(cnf)@.clauses,
                cnf@.clauses == start + joined(side as nat, part),
        {
            let lut_input = lut_inputs[side];
            assert(lut_input@ == inputs[side as int]);
            assert(1 <= inputs[side as int] <= cnf@.variables);
            self.connect_side(cnf, side, lut_input, state);
            proof {
                lemma_join_next(start, side as nat, part);
            }
        }
    }

    /// Ties `output` to the truth table: where the three `inputs` spell the
    /// number `i`, the first being the least significant bit, `output` has
    /// the value of entry `i`.
    pub fn constrain_output(&self, cnf: &mut CNF, inputs: [Variable; 3], output: Variable)
        requires
            old(cnf).wf(),
            self@.wf(),
            self@.owned_by(old(cnf)@),
            old(cnf)@.owns_all(indices(inputs@)),
            old(cnf)@.owns(output@),
        ensures
            final(cnf)@ == old(cnf)@.with_clauses(
                output_clauses(self@.table, indices(inputs@), output@),
            ),
            final(cnf).wf(),
            forall|a: spec_fn(int) -> bool| #[trigger]
                satisfies(a, final(cnf)@.clauses) <==> satisfies(a, old(cnf)@.clauses) && a(
                    output@,
                ) == a(self@.table[spelled(a, indices(inputs@))]),
    {
        let ghost table = self@.table;
        proof {
            let added = output_clauses(table, indices(inputs@), output@);
            assert forall|a: spec_fn(int) -> bool| #[trigger]
                satisfies(a, old(cnf)@.clauses + added) <==> satisfies(a, old(cnf)@.clauses) && a(
                    output@,
                ) == a(table[spelled(a, indices(inputs@))]) by {
                lemma_satisfies_concat(a, old(cnf)@.clauses, added);
                lemma_output(a, table, indices(inputs@), output@, old(cnf)@.variables);
            }
        }
        let ghost ins = indices(inputs@);
        let ghost clauses = output_clauses(table, ins, output@);
        let ghost start = cnf@.clauses;
        proof {
            reveal(output_clauses);
            assert(ins[0] == inputs@[0]@ && ins[1] == inputs@[1]@ && ins[2] == inputs@[2]@);
            assert(1 <= ins[0] <= cnf@.variables && 1 <= ins[1] <= cnf@.variables && 1 <= ins[2]
                <= cnf@.variables);
        }
        assert(cnf@.clauses =~= start + clauses.take(0));
        for i in 0..8usize
            invariant
                cnf.wf(),
                self@.wf(),
                cnf@.owns_all(table),
                cnf@.owns(output@),
                1 <= ins[0] <= cnf@.variables,
                1 <= ins[1] <= cnf@.variables,
                1 <= ins[2] <= cnf@.variables,
                ins[0] == inputs@[0]@,
                ins[1] == inputs@[1]@,
                ins[2] == inputs@[2]@,
                table == self@.table,
                clauses == interleaved(
                    8,
                    |i: int| row(ins, i).push(output@).push(-table[i]),
                    |i: int| row(ins, i).push(-output@).push(table[i]),
                ),
                cnf@.variables == old(cnf)@.variables,
                cnf@.names == old(cnf)@.names,
                start == old(cnf)@.clauses,
                cnf@.clauses == start + clauses.take(2 * i),
        {
            let table_entry = self.table[i];
            assert(table_entry@ == table[i as int]);
            assert(1 <= table[i as int] <= cnf@.variables);
            assert((i & 1 == 0) <==> (i % 2 != 1)) by (bit_vector);
            assert((i & 2 == 0) <==> ((i / 2) % 2 != 1)) by (bit_vector);
            assert((i & 4 == 0) <==> ((i / 4) % 2 != 1)) by (bit_vector);
            let input_0 = if i & 1 == 0 {
                inputs[0].literal()
            } else {
                inputs[0].negated()
            };
            let input_1 = if i & 2 == 0 {
                inputs[1].literal()
            } else {
                inputs[1].negated()
            };
            let input_2 = if i & 4 == 0 {
                inputs[2].literal()
            } else {
                inputs[2].negated()
            };
            let first = input_2.or_literal(input_1).with(input_0).with_variable(
                output,
            ).with_negated(table_entry);
            assert(first@ =~= clauses[2 * i]);
            cnf.add_clause(first);
            let second = input_2.or_literal(input_1).with(input_0).with_negated(
                output,
            ).with_variable(table_entry);
            assert(second@ =~= clauses[2 * i + 1]);
            cnf.add_clause(second);
            proof {
                lemma_extend(start, clauses, 2 * i);
                lemma_extend(start, clauses, 2 * i + 1);
            }
        }
        assert(clauses.take(16) =~= clauses);
    }

    /// The variable that says that side `side` is fed by signal `index`, if
    /// the table can be fed by that signal.
    pub fn input_node(&self, side: usize, index: usize) -> (node: Option<Variable>)
        requires
            self@.wf(),
            side < 3,
        ensures
            index < self@.width() ==> node.is_some() && node.unwrap()@
                == self@.sides[side as int][index as int],
            index >= self@.width() ==> node.is_none(),
    {
        if index < self.input_nodes[side].len() {
            Some(self.input_nodes[side][index])
        } else {
            None
        }
    }

    /// The variables of side `side`, one for each signal that can feed it.
    pub fn side(&self, side: usize) -> (nodes: &Vec<Variable>)
        requires
            self@.wf(),
            side < 3,
        ensures
            indices(nodes@) == self@.sides[side as int],
    {
        &self.input_nodes[side]
    }
}

} // verus!
