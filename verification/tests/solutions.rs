use lut_cnf::game_of_life::game_of_life_step;

struct LUT3 {
    inputs: [usize; 3],
    table: Vec<bool>,
}

impl LUT3 {
    fn compute(&self, state: &[bool]) -> bool {
        let index = ((state[self.inputs[2]] as usize) << 2)
            + ((state[self.inputs[1]] as usize) << 1)
            + (state[self.inputs[0]] as usize);

        self.table[index]
    }
}

const SOLUTION_4_3: &str = "inputs 4 instructions 3
lut_0 1 2 3 01101001
lut_1 1 2 3 00010111
lut_2 0 4 5 00000111
";

const SOLUTION_5_4: &str = "inputs 5 instructions 4
lut_0 1 2 3 01101001
lut_1 1 2 3 00010111
lut_2 0 4 5 00101001
lut_3 0 6 7 00010110
";

const SOLUTION_6_6: &str = "inputs 6 instructions 6
lut_0 1 2 3 01101001
lut_1 1 2 3 00010111
lut_2 4 5 6 00010111
lut_3 4 5 6 01101001
lut_4 0 7 8 00111100
lut_5 0 9 10 00000111
";

const SOLUTION_7_7: &str = "inputs 7 instructions 7
lut_0 1 2 3 01101001
lut_1 1 2 3 00010111
lut_2 4 5 6 01101001
lut_3 4 5 6 00010111
lut_4 0 7 9 01111100
lut_5 8 10 11 10000110
lut_6 0 11 12 00000111
";

const SOLUTION_8_8: &str = "inputs 8 instructions 8
lut_0 1 2 3 01101001
lut_1 1 2 3 00010111
lut_2 4 5 6 01101001
lut_3 4 5 6 00010111
lut_4 7 8 10 01101001
lut_5 7 8 10 00010111
lut_6 9 11 13 01101000
lut_7 0 12 14 00000111
";

fn solution(inputs: usize, instructions: usize) -> &'static str {
    match (inputs, instructions) {
        (4, 3) => SOLUTION_4_3,
        (5, 4) => SOLUTION_5_4,
        (6, 6) => SOLUTION_6_6,
        (7, 7) => SOLUTION_7_7,
        (8, 8) => SOLUTION_8_8,
        _ => panic!("no solution of this size is recorded"),
    }
}

fn step_n_m(inputs: usize, instructions: usize) {
    let luts = parse(inputs, instructions);
    assert_eq!(luts.len(), instructions);

    for excitation in 0..1 << inputs {
        let mut state = Vec::new();

        for input in 0..inputs {
            state.push(excitation & (1 << input) != 0)
        }

        for lut in &luts {
            state.push(lut.compute(&state))
        }

        assert_eq!(*state.last().unwrap(), game_of_life_step(excitation));
    }
}

fn parse(inputs: usize, instructions: usize) -> Vec<LUT3> {
    let solution = solution(inputs, instructions);

    let mut luts = Vec::new();

    for line in solution.lines().skip(1) {
        let mut parts = line.split_whitespace().skip(1);

        let inputs = [
            parts.next().unwrap().parse().unwrap(),
            parts.next().unwrap().parse().unwrap(),
            parts.next().unwrap().parse().unwrap(),
        ];

        let table = parts.next().unwrap().chars().map(|c| c == '1').collect();

        luts.push(LUT3 { inputs, table });
    }

    luts
}

#[test]
fn step_4_3() {
    step_n_m(4, 3);
}

#[test]
fn step_5_4() {
    step_n_m(5, 4);
}

#[test]
fn step_6_6() {
    step_n_m(6, 6);
}

#[test]
fn step_7_7() {
    step_n_m(7, 7);
}

#[test]
fn step_8_8() {
    step_n_m(8, 8);
}

#[test]
fn life_rule_on_full_neighbourhoods() {
    // Three neighbours alive: alive whatever the centre is.
    assert!(game_of_life_step(0b0_0000_1110));
    assert!(game_of_life_step(0b0_0000_1111));
    assert!(game_of_life_step(0b1_0100_0010));
    // Two neighbours alive: the centre keeps its state.
    assert!(!game_of_life_step(0b0_0000_0110));
    assert!(game_of_life_step(0b0_0000_0111));
    // Fewer than two or more than three: dead.
    assert!(!game_of_life_step(0));
    assert!(!game_of_life_step(1));
    assert!(!game_of_life_step(0b0_0000_0011));
    assert!(!game_of_life_step(0b0_0001_1110));
    assert!(!game_of_life_step(0b1_1111_1111));
}
