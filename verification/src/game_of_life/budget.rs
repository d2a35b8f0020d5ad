//! Whether the formula of a network can be numbered on this machine.

use crate::Args;
use crate::cardinality::{commanders, first_cut, second_cut};
use crate::game_of_life::{
    cells_variables, excitation_variables, generated_variables, lemma_cells_variables_rise,
    lemma_tails_variables_rise, less, tails_variables,
};
use crate::game_of_life::lut::cell_variables;
use vstd::arithmetic::power2::{
    lemma_pow2_pos, lemma_pow2_strictly_increases, lemma_pow2_unfold, pow2,
};
use vstd::prelude::*;

verus! {

/// The sum of two numbers of variables, if a formula can have as many.
fn add_within(total: usize, term: usize) -> (sum: Option<usize>)
    ensures
        match sum {
            Some(s) => s == total + term && s <= isize::MAX,
            None => total + term > isize::MAX,
        },
{
    match total.checked_add(term) {
        Some(s) => if s <= isize::MAX as usize {
            Some(s)
        } else {
            None
        },
        None => None,
    }
}

/// The product of two numbers of variables, if a formula can have as many.
fn times_within(factor: usize, term: usize) -> (product: Option<usize>)
    ensures
        match product {
            Some(p) => p == factor * term && p <= isize::MAX,
            None => factor * term > isize::MAX,
        },
{
    match factor.checked_mul(term) {
        Some(p) => if p <= isize::MAX as usize {
            Some(p)
        } else {
            None
        },
        None => None,
    }
}

/// The number of commanders below the one of a list of `n` elements, if a
/// formula can have as many variables.
fn count_commanders(n: usize) -> (count: Option<usize>)
    ensures
        match count {
            Some(c) => c == commanders(n as nat) && c <= isize::MAX,
            None => commanders(n as nat) > isize::MAX,
        },
    decreases n,
{
    proof {
        reveal(commanders);
    }
    if n <= 3 {
        return Some(0);
    }
    let d1 = n / 3;
    let d2 = 2 * (n / 3) + 2 * (n % 3) / 3;
    assert(d1 == first_cut(n as nat) && d2 == second_cut(n as nat));
    let first = match count_commanders(d1) {
        Some(c) => c,
        None => {
            return None;
        },
    };
    let second = match count_commanders(d2 - d1) {
        Some(c) => c,
        None => {
            return None;
        },
    };
    let third = match count_commanders(n - d2) {
        Some(c) => c,
        None => {
            return None;
        },
    };
    let sum = match add_within(3, first) {
        Some(s) => s,
        None => {
            return None;
        },
    };
    let sum = match add_within(sum, second) {
        Some(s) => s,
        None => {
            return None;
        },
    };
    add_within(sum, third)
}

/// The number of variables that a table with `m` signals to choose from
/// issues, if a formula can have as many.
fn count_cell_variables(m: usize) -> (count: Option<usize>)
    ensures
        match count {
            Some(c) => c == cell_variables(m as nat) && c <= isize::MAX,
            None => cell_variables(m as nat) > isize::MAX,
        },
{
    // Three sides of `m` choices, a truth table of eight, one commander and
    // its tree for each side, and `m` ties for each of two comparisons.
    let tree = match count_commanders(m) {
        Some(c) => c,
        None => {
            return None;
        },
    };
    let own = match times_within(5, m) {
        Some(p) => p,
        None => {
            return None;
        },
    };
    let trees = match times_within(3, tree) {
        Some(p) => p,
        None => {
            return None;
        },
    };
    let total = match add_within(11, own) {
        Some(s) => s,
        None => {
            return None;
        },
    };
    add_within(total, trees)
}

/// Two to the power of `inputs`, if a formula can have as many variables.
fn count_excitations(inputs: usize) -> (count: Option<usize>)
    ensures
        match count {
            Some(c) => c == pow2(inputs as nat) && c <= isize::MAX,
            None => pow2(inputs as nat) > isize::MAX,
        },
{
    let mut count: usize = 1;
    proof {
        vstd::arithmetic::power2::lemma2_to64();
    }
    for i in 0..inputs
        invariant
            count == pow2(i as nat),
            count <= isize::MAX,
    {
        proof {
            lemma_pow2_unfold((i + 1) as nat);
        }
        count = match add_within(count, count) {
            Some(c) => c,
            None => {
                proof {
                    if i + 1 < inputs {
                        lemma_pow2_strictly_increases((i + 1) as nat, inputs as nat);
                    }
                }
                return None;
            },
        };
    }
    Some(count)
}

/// Whether `generate_game_of_life_cnf` can be called for `args`: both counts
/// are positive, and the variables of the formula can be numbered.
pub fn fits(args: &Args) -> (ok: bool)
    ensures
        ok == (0 < args.input_count && 0 < args.instruction_count && generated_variables(
            args.input_count as nat,
            args.instruction_count as nat,
        ) <= isize::MAX),
{
    if args.input_count == 0 || args.instruction_count == 0 {
        return false;
    }
    let ghost inputs = args.input_count as nat;
    let ghost n = args.instruction_count as nat;
    let ghost per = excitation_variables(inputs, n);
    proof {
        lemma_pow2_pos(inputs);
        assert(per <= pow2(inputs) * per) by (nonlinear_arith)
            requires
                pow2(inputs) >= 1,
        ;
        assert(pow2(inputs) <= pow2(inputs) * per) by (nonlinear_arith)
            requires
                per >= 1,
        ;
    }
    // The variables of one excitation.
    let signals = match add_within(args.input_count, args.instruction_count) {
        Some(s) => s,
        None => {
            return false;
        },
    };
    let table_inputs = match times_within(3, args.instruction_count) {
        Some(p) => p,
        None => {
            return false;
        },
    };
    let per_excitation = match add_within(signals, table_inputs) {
        Some(s) => s,
        None => {
            return false;
        },
    };
    // The variables of the tables.
    let mut total: usize = 0;
    for i in 0..args.instruction_count
        invariant
            inputs == args.input_count,
            n == args.instruction_count,
            inputs + n <= isize::MAX,
            total == cells_variables(inputs, i as nat),
            total <= isize::MAX,
    {
        proof {
            lemma_cells_variables_rise(inputs, (i + 1) as nat, n);
        }
        let cell = match count_cell_variables(args.input_count + i) {
            Some(c) => c,
            None => {
                return false;
            },
        };
        total = match add_within(total, cell) {
            Some(s) => s,
            None => {
                return false;
            },
        };
    }
    // The variables of the comparisons between neighbouring tables.
    let ghost tables = total as nat;
    let mut i: usize = 1;
    while i < args.instruction_count
        invariant
            1 <= i <= args.instruction_count,
            inputs == args.input_count,
            n == args.instruction_count,
            inputs + n <= isize::MAX,
            tables == cells_variables(inputs, n),
            total == tables + tails_variables(inputs, (i - 1) as nat),
            total <= isize::MAX,
        decreases args.instruction_count - i,
    {
        proof {
            lemma_tails_variables_rise(inputs, i as nat, less(n, 1));
        }
        // One variable fills the shorter side, and each bit has a tie.
        let ties = args.input_count + i + 1;
        total = match add_within(total, ties) {
            Some(s) => s,
            None => {
                return false;
            },
        };
        i += 1;
    }
    // The variables of the excitations.
    let count = match count_excitations(args.input_count) {
        Some(c) => c,
        None => {
            return false;
        },
    };
    match times_within(count, per_excitation) {
        Some(product) => add_within(total, product).is_some(),
        None => false,
    }
}

} // verus!
