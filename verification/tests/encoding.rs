use lut_cnf::cnf::{Clause, Variable, CNF};
use lut_cnf::game_of_life::budget::fits;
use lut_cnf::game_of_life::generate_game_of_life_cnf;
use lut_cnf::game_of_life::lut::LUT3;
use lut_cnf::Args;

/// The clauses of a formula as lists of signed indices.
fn clauses(cnf: &CNF) -> Vec<Vec<isize>> {
    let mut all = Vec::new();
    for i in 0..cnf.clause_count() {
        let clause = cnf.clause(i);
        let mut literals = Vec::new();
        for k in 0..clause.len() {
            literals.push(clause.literal(k).value());
        }
        all.push(literals);
    }
    all
}

fn holds(literal: isize, assignment: &[bool]) -> bool {
    assignment[literal.unsigned_abs() - 1] == (literal > 0)
}

fn satisfied(clauses: &[Vec<isize>], assignment: &[bool]) -> bool {
    clauses
        .iter()
        .all(|clause| clause.iter().any(|&literal| holds(literal, assignment)))
}

/// Whether the values of the first variables, as given, can be completed to
/// an assignment of all `variables` that satisfies the clauses.
fn completable(clauses: &[Vec<isize>], variables: usize, given: &[bool]) -> bool {
    let free = variables - given.len();
    assert!(free < 24);
    let mut assignment = given.to_vec();
    assignment.resize(variables, false);
    for rest in 0..(1usize << free) {
        for k in 0..free {
            assignment[given.len() + k] = rest & (1 << k) != 0;
        }
        if satisfied(clauses, &assignment) {
            return true;
        }
    }
    false
}

/// Unit propagation. Returns `false` when a clause has become false.
fn propagate(clauses: &[Vec<isize>], assignment: &mut Vec<Option<bool>>) -> bool {
    loop {
        let mut changed = false;
        for clause in clauses {
            let mut open = None;
            let mut open_count = 0;
            let mut done = false;
            for &literal in clause {
                match assignment[literal.unsigned_abs() - 1] {
                    Some(value) => {
                        if value == (literal > 0) {
                            done = true;
                            break;
                        }
                    }
                    None => {
                        open = Some(literal);
                        open_count += 1;
                    }
                }
            }
            if done {
                continue;
            }
            if open_count == 0 {
                return false;
            }
            if open_count == 1 {
                let literal = open.unwrap();
                assignment[literal.unsigned_abs() - 1] = Some(literal > 0);
                changed = true;
            }
        }
        if !changed {
            return true;
        }
    }
}

fn bits(value: usize, count: usize) -> Vec<bool> {
    (0..count).map(|k| value & (1 << k) != 0).collect()
}

fn number(bits: &[bool]) -> usize {
    bits.iter()
        .enumerate()
        .map(|(k, &bit)| if bit { 1 << k } else { 0 })
        .sum()
}

fn fresh(cnf: &mut CNF, count: usize) -> Vec<Variable> {
    (0..count).map(|_| cnf.new_variable()).collect()
}

fn fnv(text: &str) -> u64 {
    let mut hash: u64 = 0xcbf29ce484222325;
    for byte in text.bytes() {
        hash ^= byte as u64;
        hash = hash.wrapping_mul(0x100000001b3);
    }
    hash
}

#[test]
fn variables_are_counted_from_one() {
    let mut cnf = CNF::new();
    assert_eq!(cnf.variable_count(), 0);
    let a = cnf.new_variable();
    let b = cnf.new_named_variable(String::from("b"));
    let c = cnf.new_variable();
    assert_eq!((a.index(), b.index(), c.index()), (1, 2, 3));
    assert_eq!(cnf.variable_count(), 3);
    assert_eq!(cnf.name_count(), 1);
    assert_eq!(cnf.name(0), "b");
    assert_eq!(cnf.named_variable(0).index(), 2);
}

#[test]
fn clause_algebra_appends_in_call_order() {
    let mut cnf = CNF::default();
    let v = fresh(&mut cnf, 3);
    assert_eq!(v[0].literal().value(), 1);
    assert_eq!(v[0].negated().value(), -1);
    assert_eq!(v[0].or(v[1]).to_dimacs(), "1 2 0");
    assert_eq!(v[0].or_not(v[1]).to_dimacs(), "1 -2 0");
    assert_eq!(v[0].negated().or(v[1]).to_dimacs(), "-1 2 0");
    assert_eq!(v[0].negated().or_not(v[1]).to_dimacs(), "-1 -2 0");
    assert_eq!(v[2].negated().or_literal(v[0].negated()).to_dimacs(), "-3 -1 0");
    assert_eq!(v[1].clause().to_dimacs(), "2 0");
    assert_eq!(v[1].negated().clause().to_dimacs(), "-2 0");
    assert_eq!(Clause::new().to_dimacs(), "0");
    assert_eq!(Clause::of_variables(&v).to_dimacs(), "1 2 3 0");
    assert_eq!(
        Clause::of(vec![v[2].literal(), v[0].negated()]).to_dimacs(),
        "3 -1 0"
    );
    // Nothing is simplified: a literal may come twice, or with its complement.
    let clause = v[0]
        .or(v[0])
        .with_negated(v[0])
        .with_variable(v[2])
        .with(v[1].negated());
    assert_eq!(clause.len(), 5);
    assert_eq!(clause.to_dimacs(), "1 1 -1 3 -2 0");
}

#[test]
fn dimacs_lists_names_header_and_clauses() {
    let mut cnf = CNF::new();
    assert_eq!(cnf.to_dimacs(), "p cnf 0 0");
    let a = cnf.new_named_variable(String::from("first"));
    let b = cnf.new_variable();
    let c = cnf.new_named_variable(String::from("first"));
    cnf.add_clause(a.or_not(b).with_variable(c));
    cnf.add_clause(c.negated().clause());
    cnf.add_clause(Clause::new());
    assert_eq!(
        cnf.to_dimacs(),
        "c first := 1\nc first := 3\np cnf 3 3\n1 -2 3 0\n-3 0\n0"
    );
}

#[test]
fn dimacs_writes_numbers_of_several_digits() {
    let mut cnf = CNF::new();
    let v = fresh(&mut cnf, 1205);
    cnf.add_clause(v[9].or_not(v[99]).with_variable(v[1204]).with_negated(v[1000]));
    assert_eq!(cnf.to_dimacs(), "p cnf 1205 1\n10 -100 1205 -1001 0");
}

#[test]
fn exactly_once_of_three_writes_pairs_in_order() {
    let mut cnf = CNF::new();
    let v = fresh(&mut cnf, 3);
    cnf.exactly_once(&v);
    assert_eq!(
        cnf.to_dimacs(),
        "p cnf 4 12\n1 2 3 0\n-1 -2 0\n-1 -3 0\n-2 -3 0\n4 0\n-1 -2 0\n-1 -3 0\n-2 -3 0\n1 2 3 -4 0\n4 -1 0\n4 -2 0\n4 -3 0"
    );
}

#[test]
fn exactly_once_of_four_splits_into_three_groups() {
    let mut cnf = CNF::new();
    let v = fresh(&mut cnf, 4);
    cnf.exactly_once(&v);
    assert_eq!(
        cnf.to_dimacs(),
        "p cnf 8 26\n1 2 3 4 0\n-1 -2 0\n-1 -3 0\n-1 -4 0\n-2 -3 0\n-2 -4 0\n-3 -4 0\n5 0\n1 -6 0\n6 -1 0\n2 -7 0\n7 -2 0\n-3 -4 0\n3 4 -8 0\n8 -3 0\n8 -4 0\n-6 -7 0\n-6 -8 0\n-7 -8 0\n6 7 8 -5 0\n5 -6 0\n5 -7 0\n5 -8 0\n-6 -7 0\n-6 -8 0\n-7 -8 0"
    );
}

#[test]
fn exactly_once_of_seven_has_no_direct_clauses() {
    let mut cnf = CNF::new();
    let v = fresh(&mut cnf, 7);
    cnf.exactly_once(&v);
    assert_eq!(
        cnf.to_dimacs(),
        "p cnf 11 26\n8 0\n-1 -2 0\n1 2 -9 0\n9 -1 0\n9 -2 0\n-3 -4 0\n3 4 -10 0\n10 -3 0\n10 -4 0\n-5 -6 0\n-5 -7 0\n-6 -7 0\n5 6 7 -11 0\n11 -5 0\n11 -6 0\n11 -7 0\n-9 -10 0\n-9 -11 0\n-10 -11 0\n9 10 11 -8 0\n8 -9 0\n8 -10 0\n8 -11 0\n-9 -10 0\n-9 -11 0\n-10 -11 0"
    );
}

#[test]
fn exactly_once_counts_variables_and_clauses() {
    for (choices, variables, clause_count) in [
        (1, 2, 4),
        (2, 3, 7),
        (3, 4, 12),
        (4, 8, 26),
        (5, 9, 32),
        (6, 10, 23),
        (10, 17, 43),
        (27, 40, 104),
    ] {
        let mut cnf = CNF::new();
        let v = fresh(&mut cnf, choices);
        cnf.exactly_once(&v);
        assert_eq!(cnf.variable_count(), variables);
        assert_eq!(cnf.clause_count(), clause_count);
    }
}

#[test]
fn exactly_once_admits_the_one_hot_assignments_and_no_others() {
    for choices in [1usize, 2, 3, 4, 5, 6, 10] {
        let mut cnf = CNF::new();
        let v = fresh(&mut cnf, choices);
        cnf.exactly_once(&v);
        let all = clauses(&cnf);
        for pattern in 0..(1usize << choices) {
            let given = bits(pattern, choices);
            let hot = given.iter().filter(|&&bit| bit).count();
            assert_eq!(
                completable(&all, cnf.variable_count(), &given),
                hot == 1,
                "{choices} choices, pattern {pattern:b}"
            );
        }
    }
}

#[test]
fn exactly_once_of_twenty_seven_by_propagation() {
    let choices = 27;
    let mut cnf = CNF::new();
    let v = fresh(&mut cnf, choices);
    cnf.exactly_once(&v);
    let all = clauses(&cnf);
    let run = |hot: &[usize]| {
        let mut assignment = vec![None; cnf.variable_count()];
        for k in 0..choices {
            assignment[k] = Some(hot.contains(&k));
        }
        let consistent = propagate(&all, &mut assignment);
        (consistent, assignment)
    };
    // Every one-hot assignment can be completed.
    for k in 0..choices {
        let (consistent, assignment) = run(&[k]);
        assert!(consistent);
        let complete: Vec<bool> = assignment.iter().map(|value| value.unwrap()).collect();
        assert!(satisfied(&all, &complete));
    }
    // No assignment with two true choices can, nor the one with none.
    for k in 0..choices {
        for l in k + 1..choices {
            assert!(!run(&[k, l]).0);
        }
    }
    assert!(!run(&[]).0);
}

#[test]
fn exactly_once_of_nothing_cannot_be_satisfied() {
    let mut cnf = CNF::new();
    cnf.exactly_once(&[]);
    let all = clauses(&cnf);
    assert!(!completable(&all, cnf.variable_count(), &[]));
}

#[test]
fn less_than_of_two_bits_writes_the_chain() {
    let mut cnf = CNF::new();
    let v = fresh(&mut cnf, 4);
    cnf.less_than(&v[..2], &v[2..]);
    assert_eq!(
        cnf.to_dimacs(),
        "p cnf 6 10\n-6 5 0\n-5 2 -4 0\n-5 -2 4 0\n-6 1 -3 0\n-6 -1 3 0\n-5 6 -1 0\n-5 6 3 0\n5 -2 0\n5 4 0\n-6 0"
    );
}

#[test]
fn less_than_equal_fills_the_shorter_left_side() {
    let mut cnf = CNF::new();
    let v = fresh(&mut cnf, 3);
    cnf.less_than_equal(&v[..1], &v[1..]);
    assert_eq!(
        cnf.to_dimacs(),
        "p cnf 6 10\n-4 0\n-6 5 0\n-5 4 -3 0\n-5 -4 3 0\n-6 1 -2 0\n-6 -1 2 0\n-5 6 -1 0\n-5 6 2 0\n5 -4 0\n5 3 0"
    );
}

#[test]
fn less_than_equal_fills_the_shorter_right_side() {
    let mut cnf = CNF::new();
    let v = fresh(&mut cnf, 3);
    cnf.less_than_equal(&v[..2], &v[2..]);
    assert_eq!(
        cnf.to_dimacs(),
        "p cnf 6 10\n-4 0\n-6 5 0\n-5 2 -4 0\n-5 -2 4 0\n-6 1 -3 0\n-6 -1 3 0\n-5 6 -1 0\n-5 6 3 0\n5 -2 0\n5 4 0"
    );
}

#[test]
fn comparators_order_numbers_of_all_small_lengths() {
    for left in 0..=3usize {
        for right in 0..=3usize {
            if left + right == 0 {
                continue;
            }
            for strict in [false, true] {
                let mut cnf = CNF::new();
                let v = fresh(&mut cnf, left + right);
                if strict {
                    cnf.less_than(&v[..left], &v[left..]);
                } else {
                    cnf.less_than_equal(&v[..left], &v[left..]);
                }
                let all = clauses(&cnf);
                for pattern in 0..(1usize << (left + right)) {
                    let given = bits(pattern, left + right);
                    let lhs = number(&given[..left]);
                    let rhs = number(&given[left..]);
                    let expected = if strict { lhs < rhs } else { lhs <= rhs };
                    assert_eq!(
                        completable(&all, cnf.variable_count(), &given),
                        expected,
                        "{lhs} against {rhs}, strict: {strict}"
                    );
                }
            }
        }
    }
}

#[test]
fn comparator_zero_against_three() {
    for strict in [false, true] {
        let mut cnf = CNF::new();
        let v = fresh(&mut cnf, 3);
        cnf.add_clause(v[0].negated().clause());
        cnf.add_clause(v[1].clause());
        cnf.add_clause(v[2].clause());
        if strict {
            cnf.less_than(&v[..1], &v[1..]);
        } else {
            cnf.less_than_equal(&v[..1], &v[1..]);
        }
        assert!(completable(&clauses(&cnf), cnf.variable_count(), &[]));
    }
}

#[test]
fn comparator_three_against_zero() {
    let mut cnf = CNF::new();
    let v = fresh(&mut cnf, 3);
    cnf.add_clause(v[0].clause());
    cnf.add_clause(v[1].clause());
    cnf.add_clause(v[2].negated().clause());
    cnf.less_than_equal(&v[..2], &v[2..]);
    assert!(!completable(&clauses(&cnf), cnf.variable_count(), &[]));
}

fn args(input_count: usize, instruction_count: usize) -> Args {
    Args {
        input_count,
        instruction_count,
    }
}

#[test]
fn a_table_names_its_variables() {
    let mut cnf = CNF::new();
    let lut = LUT3::new(&mut cnf, 12, &args(1, 0));
    assert_eq!(lut.side(0).len(), 13);
    assert_eq!(cnf.name_count(), 3 * 13 + 8);
    assert_eq!(cnf.name(0), "lut_12_side_0_connection_0");
    assert_eq!(cnf.name(12), "lut_12_side_0_connection_12");
    assert_eq!(cnf.name(13), "lut_12_side_1_connection_0");
    assert_eq!(cnf.name(38), "lut_12_side_2_connection_12");
    assert_eq!(cnf.name(39), "lut_12_table_0");
    assert_eq!(cnf.name(46), "lut_12_table_7");
    assert_eq!(cnf.named_variable(46).index(), 47);
    assert_eq!(lut.input_node(1, 0).unwrap().index(), 14);
    assert_eq!(lut.input_node(2, 12).unwrap().index(), 39);
    assert!(lut.input_node(2, 13).is_none());
    assert_eq!(lut.side(2)[3].index(), 30);
}

#[test]
fn a_table_feeds_no_side_by_a_later_signal_than_the_next() {
    let mut cnf = CNF::new();
    let lut = LUT3::new(&mut cnf, 1, &args(3, 0));
    let width = 4;
    let all = clauses(&cnf);
    // The choices come first among the variables: 3 sides of 4 choices.
    for pattern in 0..(1usize << (3 * width)) {
        let given = bits(pattern, 3 * width);
        let chosen: Vec<Vec<usize>> = (0..3)
            .map(|side| (0..width).filter(|&j| given[side * width + j]).collect())
            .collect();
        // Two sides may be fed by the same signal.
        let expected = chosen.iter().all(|side| side.len() == 1)
            && chosen[0][0] <= chosen[1][0]
            && chosen[1][0] <= chosen[2][0];
        // The eight entries of the truth table are free.
        let mut with_table = given.clone();
        with_table.extend([false; 8]);
        let mut assignment: Vec<Option<bool>> = with_table.iter().map(|&b| Some(b)).collect();
        assignment.resize(cnf.variable_count(), None);
        let consistent = propagate(&all, &mut assignment);
        let complete = assignment.iter().all(|value| value.is_some());
        assert_eq!(consistent && complete, expected, "pattern {pattern:b}");
        if expected {
            let values: Vec<bool> = assignment.iter().map(|value| value.unwrap()).collect();
            assert!(satisfied(&all, &values));
        }
    }
    assert_eq!(lut.side(1).len(), width);
}

#[test]
fn a_table_has_the_expected_number_of_clauses() {
    let mut cnf = CNF::new();
    LUT3::new(&mut cnf, 0, &args(3, 0));
    assert_eq!(cnf.variable_count(), 26);
    assert_eq!(cnf.clause_count(), 64);
    let mut cnf = CNF::new();
    LUT3::new(&mut cnf, 1, &args(3, 0));
    assert_eq!(cnf.variable_count(), 40);
    assert_eq!(cnf.clause_count(), 116);
    let cnf = generate_game_of_life_cnf(&args(3, 1));
    assert_eq!(cnf.variable_count(), 82);
    assert_eq!(cnf.clause_count(), 373);
}

#[test]
fn the_output_of_a_table_is_the_entry_that_its_inputs_spell() {
    let mut cnf = CNF::new();
    let lut = LUT3::new(&mut cnf, 0, &args(3, 0));
    let table: Vec<usize> = (0..8).map(|i| cnf.named_variable(9 + i).index()).collect();
    let before = cnf.clause_count();
    let inputs = [cnf.new_variable(), cnf.new_variable(), cnf.new_variable()];
    let output = cnf.new_variable();
    lut.constrain_output(&mut cnf, inputs, output);
    assert_eq!(cnf.clause_count(), before + 16);
    let added = clauses(&cnf).split_off(before);
    for entries in 0..256usize {
        for spelled in 0..8usize {
            for out in [false, true] {
                let mut assignment = vec![false; cnf.variable_count()];
                for (i, &entry) in table.iter().enumerate() {
                    assignment[entry - 1] = entries & (1 << i) != 0;
                }
                for (k, input) in inputs.iter().enumerate() {
                    assignment[input.index() - 1] = spelled & (1 << k) != 0;
                }
                assignment[output.index() - 1] = out;
                let expected = out == (entries & (1 << spelled) != 0);
                assert_eq!(satisfied(&added, &assignment), expected);
            }
        }
    }
}

#[test]
fn the_first_row_of_a_table_asserts_all_inputs() {
    let mut cnf = CNF::new();
    let lut = LUT3::new(&mut cnf, 0, &args(3, 0));
    let before = cnf.clause_count();
    let inputs = [cnf.new_variable(), cnf.new_variable(), cnf.new_variable()];
    let output = cnf.new_variable();
    let first = inputs[0].index() as isize;
    lut.constrain_output(&mut cnf, inputs, output);
    let added = clauses(&cnf).split_off(before);
    assert_eq!(added[0], vec![first + 2, first + 1, first, first + 3, -10]);
    assert_eq!(added[1], vec![first + 2, first + 1, first, -(first + 3), 10]);
    assert_eq!(added[2], vec![first + 2, first + 1, -first, first + 3, -11]);
    assert_eq!(added[15], vec![-(first + 2), -(first + 1), -first, -(first + 3), 17]);
}

#[test]
fn the_input_of_a_side_is_the_signal_that_feeds_it() {
    let mut cnf = CNF::new();
    let lut = LUT3::new(&mut cnf, 0, &args(3, 0));
    let before = cnf.clause_count();
    let state = fresh(&mut cnf, 5);
    let inputs = [cnf.new_variable(), cnf.new_variable(), cnf.new_variable()];
    lut.constrain_connections(&mut cnf, inputs, &state);
    // Two clauses for each of three sides and three signals: the table cannot
    // be fed by the last two signals of the state.
    assert_eq!(cnf.clause_count(), before + 18);
    let added = clauses(&cnf).split_off(before);
    assert_eq!(added[0], vec![-1, state[0].index() as isize, -(inputs[0].index() as isize)]);
    assert_eq!(added[1], vec![-1, -(state[0].index() as isize), inputs[0].index() as isize]);
    assert_eq!(added[17], vec![-9, -(state[2].index() as isize), inputs[2].index() as isize]);
    for feeds in [[0usize, 1, 2], [2, 0, 1], [1, 1, 1]] {
        for signals in 0..8usize {
            for values in 0..8usize {
                let mut assignment = vec![false; cnf.variable_count()];
                for side in 0..3 {
                    assignment[lut.input_node(side, feeds[side]).unwrap().index() - 1] = true;
                    assignment[inputs[side].index() - 1] = values & (1 << side) != 0;
                }
                for k in 0..3 {
                    assignment[state[k].index() - 1] = signals & (1 << k) != 0;
                }
                let expected = (0..3).all(|side| {
                    (values & (1 << side) != 0) == (signals & (1 << feeds[side]) != 0)
                });
                assert_eq!(satisfied(&added, &assignment), expected);
            }
        }
    }
    // A state shorter than the table is wide gives fewer clauses.
    let short = cnf.clause_count();
    lut.constrain_connections(&mut cnf, inputs, &state[..2]);
    assert_eq!(cnf.clause_count(), short + 12);
}

const GENERATED_1_1: &str = "c lut_0_side_0_connection_0 := 1\n\
c lut_0_side_1_connection_0 := 2\n\
c lut_0_side_2_connection_0 := 3\n\
c lut_0_table_0 := 4\n\
c lut_0_table_1 := 5\n\
c lut_0_table_2 := 6\n\
c lut_0_table_3 := 7\n\
c lut_0_table_4 := 8\n\
c lut_0_table_5 := 9\n\
c lut_0_table_6 := 10\n\
c lut_0_table_7 := 11\n\
p cnf 26 70\n\
1 0\n\
12 0\n\
1 -12 0\n\
12 -1 0\n\
2 0\n\
13 0\n\
2 -13 0\n\
13 -2 0\n\
3 0\n\
14 0\n\
3 -14 0\n\
14 -3 0\n\
-15 1 -2 0\n\
-15 -1 2 0\n\
15 -1 0\n\
15 2 0\n\
-16 2 -3 0\n\
-16 -2 3 0\n\
16 -2 0\n\
16 3 0\n\
1 2 3 0\n\
1 2 3 0\n\
-17 0\n\
-18 0\n\
21 20 19 18 -4 0\n\
21 20 19 -18 4 0\n\
21 20 -19 18 -5 0\n\
21 20 -19 -18 5 0\n\
21 -20 19 18 -6 0\n\
21 -20 19 -18 6 0\n\
21 -20 -19 18 -7 0\n\
21 -20 -19 -18 7 0\n\
-21 20 19 18 -8 0\n\
-21 20 19 -18 8 0\n\
-21 20 -19 18 -9 0\n\
-21 20 -19 -18 9 0\n\
-21 -20 19 18 -10 0\n\
-21 -20 19 -18 10 0\n\
-21 -20 -19 18 -11 0\n\
-21 -20 -19 -18 11 0\n\
-1 17 -19 0\n\
-1 -17 19 0\n\
-2 17 -20 0\n\
-2 -17 20 0\n\
-3 17 -21 0\n\
-3 -17 21 0\n\
22 0\n\
-23 0\n\
26 25 24 23 -4 0\n\
26 25 24 -23 4 0\n\
26 25 -24 23 -5 0\n\
26 25 -24 -23 5 0\n\
26 -25 24 23 -6 0\n\
26 -25 24 -23 6 0\n\
26 -25 -24 23 -7 0\n\
26 -25 -24 -23 7 0\n\
-26 25 24 23 -8 0\n\
-26 25 24 -23 8 0\n\
-26 25 -24 23 -9 0\n\
-26 25 -24 -23 9 0\n\
-26 -25 24 23 -10 0\n\
-26 -25 24 -23 10 0\n\
-26 -25 -24 23 -11 0\n\
-26 -25 -24 -23 11 0\n\
-1 22 -24 0\n\
-1 -22 24 0\n\
-2 22 -25 0\n\
-2 -22 25 0\n\
-3 22 -26 0\n\
-3 -22 26 0";

#[test]
fn the_smallest_formula() {
    let cnf = generate_game_of_life_cnf(&args(1, 1));
    assert_eq!(cnf.to_dimacs(), GENERATED_1_1);
}

#[test]
fn formulas_have_the_expected_sizes_and_texts() {
    for (inputs, instructions, variables, clause_count, length, hash) in [
        (1usize, 1usize, 26usize, 70usize, 1212usize, 0x85934561e1b28992u64),
        (2, 1, 45, 165, 2608, 0x2e9ba9d7b9bf5743),
        (3, 3, 242, 1376, 23777, 0x9e1f5d715cf1f604),
        (4, 3, 404, 2754, 47810, 0xaea78809333ea097),
        (5, 4, 906, 7967, 140449, 0x470f02f6473c0554),
    ] {
        let cnf = generate_game_of_life_cnf(&args(inputs, instructions));
        assert_eq!(cnf.variable_count(), variables);
        assert_eq!(cnf.clause_count(), clause_count);
        let text = cnf.to_dimacs();
        assert_eq!(text.len(), length);
        assert_eq!(fnv(&text), hash);
    }
}

#[test]
fn two_runs_give_the_same_text() {
    let first = generate_game_of_life_cnf(&args(4, 3)).to_dimacs();
    let second = generate_game_of_life_cnf(&args(4, 3)).to_dimacs();
    assert_eq!(first, second);
    let other = generate_game_of_life_cnf(&args(4, 2)).to_dimacs();
    assert_ne!(first, other);
}

/// Gives the choices and truth tables of a formula the values of a network,
/// completes the assignment by unit propagation, and says whether it
/// satisfies the formula.
fn network_satisfies(cnf: &CNF, network: &[([usize; 3], &str)]) -> bool {
    let mut assignment: Vec<Option<bool>> = vec![None; cnf.variable_count()];
    for k in 0..cnf.name_count() {
        let name = cnf.name(k);
        let parts: Vec<&str> = name.split('_').collect();
        let lut: usize = parts[1].parse().unwrap();
        let value = if parts[2] == "side" {
            let side: usize = parts[3].parse().unwrap();
            let source: usize = parts[5].parse().unwrap();
            network[lut].0[side] == source
        } else {
            let entry: usize = parts[3].parse().unwrap();
            network[lut].1.as_bytes()[entry] == b'1'
        };
        assignment[cnf.named_variable(k).index() - 1] = Some(value);
    }
    let all = clauses(cnf);
    if !propagate(&all, &mut assignment) {
        return false;
    }
    let values: Vec<bool> = assignment.iter().map(|value| value.unwrap()).collect();
    satisfied(&all, &values)
}

#[test]
fn a_single_table_for_no_neighbours() {
    let cnf = generate_game_of_life_cnf(&args(1, 1));
    // Without neighbours the cell is dead in the next state. The only input
    // feeds all three sides of the table.
    assert!(network_satisfies(&cnf, &[([0, 0, 0], "00000000")]));
    assert!(network_satisfies(&cnf, &[([0, 0, 0], "01111110")]));
    assert!(!network_satisfies(&cnf, &[([0, 0, 0], "10000000")]));
    assert!(!network_satisfies(&cnf, &[([0, 0, 0], "00000001")]));
}

#[test]
fn two_sides_of_a_table_may_be_fed_by_the_same_signal() {
    let cnf = generate_game_of_life_cnf(&args(3, 2));
    // The first table tells whether both neighbours live, the second whether
    // the cell lives as well. Each is fed twice by one of its two signals.
    let network = [([1, 1, 2], "00000001"), ([0, 0, 3], "00000001")];
    assert!(network_satisfies(&cnf, &network));
    // The signal of a side must not come after that of the next side.
    assert!(!network_satisfies(
        &cnf,
        &[([1, 2, 1], "00000001"), ([0, 0, 3], "00000001")]
    ));
    assert!(!network_satisfies(
        &cnf,
        &[([1, 1, 2], "00000001"), ([0, 0, 3], "00010001")]
    ));
}

#[test]
fn a_single_table_for_two_neighbours() {
    let cnf = generate_game_of_life_cnf(&args(3, 1));
    // With two neighbours the cell lives on only if it and both of them live.
    assert!(network_satisfies(&cnf, &[([0, 1, 2], "00000001")]));
    assert!(!network_satisfies(&cnf, &[([0, 1, 2], "00000011")]));
    assert!(!network_satisfies(&cnf, &[([0, 1, 2], "00000000")]));
}

#[test]
fn networks_that_satisfy_their_formulas() {
    let cnf = generate_game_of_life_cnf(&args(4, 3));
    let network = [
        ([1, 2, 3], "01101001"),
        ([1, 2, 3], "00010111"),
        ([0, 4, 5], "00000111"),
    ];
    assert!(network_satisfies(&cnf, &network));
    // A wrong entry in the last truth table.
    let mut wrong = network;
    wrong[2].1 = "00000011";
    assert!(!network_satisfies(&cnf, &wrong));
    // The same network with two sides of the first table exchanged.
    let mut unordered = network;
    unordered[0].0 = [2, 1, 3];
    assert!(!network_satisfies(&cnf, &unordered));

    let cnf = generate_game_of_life_cnf(&args(5, 4));
    let network = [
        ([1, 2, 3], "01101001"),
        ([1, 2, 3], "00010111"),
        ([0, 4, 5], "00101001"),
        ([0, 6, 7], "00010110"),
    ];
    assert!(network_satisfies(&cnf, &network));

    let cnf = generate_game_of_life_cnf(&args(6, 6));
    let network = [
        ([1, 2, 3], "01101001"),
        ([1, 2, 3], "00010111"),
        ([4, 5, 6], "00010111"),
        ([4, 5, 6], "01101001"),
        ([0, 7, 8], "00111100"),
        ([0, 9, 10], "00000111"),
    ];
    assert!(network_satisfies(&cnf, &network));
}

#[test]
fn variables_and_literals_are_written_in_decimal() {
    let mut cnf = CNF::new();
    let v = fresh(&mut cnf, 120);
    assert_eq!(v[0].to_dimacs(), "1");
    assert_eq!(v[9].to_dimacs(), "10");
    assert_eq!(v[118].to_dimacs(), "119");
    assert_eq!(v[118].literal().to_dimacs(), "119");
    assert_eq!(v[119].negated().to_dimacs(), "-120");
    assert_eq!(Clause::default().len(), 0);
}

#[test]
fn sizes_that_can_and_cannot_be_numbered() {
    assert!(fits(&args(1, 1)));
    assert!(fits(&args(9, 9)));
    assert!(fits(&args(40, 5)));
    assert!(!fits(&args(0, 1)));
    assert!(!fits(&args(1, 0)));
    assert!(!fits(&args(0, 0)));
    // Two to the power of the number of inputs has to fit.
    assert!(!fits(&args(usize::BITS as usize, 1)));
    assert!(!fits(&args(usize::BITS as usize - 1, 1)));
    assert!(!fits(&args(usize::BITS as usize - 2, 1)));
    assert!(!fits(&args(usize::MAX, 1)));
    assert!(!fits(&args(1, usize::MAX)));
    assert!(!fits(&args(usize::MAX, usize::MAX)));
}
