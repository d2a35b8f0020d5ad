use lut_cnf::cnf::CNF;
use lut_cnf::game_of_life::generate_game_of_life_cnf;
use lut_cnf::resolve::{read_answer, resolve, ResolveError};
use lut_cnf::Args;

fn named(pairs: &[(&str, bool)]) -> Vec<(Vec<u8>, bool)> {
    pairs
        .iter()
        .map(|(name, value)| (name.as_bytes().to_vec(), *value))
        .collect()
}

#[test]
fn an_answer_is_read_back_by_name() {
    let formula = "c b := 2\nc a := 1\nc b := 4\np cnf 5 0";
    assert_eq!(
        resolve(formula.as_bytes(), b"-1 2 3 -4 5"),
        Ok(named(&[("b", true), ("a", false), ("b", false)]))
    );
    assert_eq!(resolve(b"p cnf 0 0", b""), Ok(Vec::new()));
    assert_eq!(resolve(b"", b"1 2 3"), Ok(Vec::new()));
}

#[test]
fn only_the_comment_lines_at_the_head_are_read() {
    let formula = "c a := 1\np cnf 2 1\nc b := 2\n1 2 0";
    assert_eq!(
        resolve(formula.as_bytes(), b"1 -2"),
        Ok(named(&[("a", true)]))
    );
}

#[test]
fn lines_may_end_with_a_carriage_return() {
    let formula = "c a := 2\r\nc b c := +1\r\n\r\n";
    assert_eq!(
        resolve(formula.as_bytes(), b"-1\t2\r\n"),
        Ok(named(&[("a", true), ("b c", false)]))
    );
}

#[test]
fn a_name_ends_at_the_first_separator() {
    assert_eq!(
        resolve(b"c  := 1", b"7"),
        Ok(named(&[("", true)]))
    );
    // What follows the first separator has to be a number.
    assert_eq!(
        resolve(b"c a := b := 1", b"7"),
        Err(ResolveError::Malformed(0))
    );
}

#[test]
fn an_answer_that_is_too_short_is_refused() {
    let formula = "c a := 1\nc c := 3\nc d := 4\np cnf 4 0";
    assert_eq!(
        resolve(formula.as_bytes(), b"1 -2"),
        Err(ResolveError::Unassigned(3))
    );
    assert_eq!(
        resolve(formula.as_bytes(), b" \n"),
        Err(ResolveError::Unassigned(1))
    );
    assert!(resolve(formula.as_bytes(), b"1 -2 3 4").is_ok());
}

#[test]
fn a_name_of_variable_zero_is_refused() {
    assert_eq!(
        resolve(b"c a := 1\nc nothing := 0\n", b"1 2"),
        Err(ResolveError::NoVariable(9))
    );
}

#[test]
fn malformed_comment_lines_are_refused() {
    for line in [
        "c",
        "c a",
        "c a := ",
        "c a := x",
        "c a := 1 ",
        "c a := -1",
        "c a := 1.5",
        "c a:= 1",
        "c a :=1",
        "ca := 1",
        "c := 1",
        "c a := 99999999999999999999999999",
    ] {
        let formula = format!("c ok := 1\n{line}\np cnf 1 0");
        assert_eq!(
            resolve(formula.as_bytes(), b"1"),
            Err(ResolveError::Malformed(10)),
            "{line}"
        );
    }
}

#[test]
fn the_largest_number_of_the_machine_is_read() {
    let formula = format!("c a := {}", usize::MAX);
    assert_eq!(
        resolve(formula.as_bytes(), b"1"),
        Err(ResolveError::Unassigned(usize::MAX))
    );
}

#[test]
fn tokens_that_start_with_a_minus_sign_are_false() {
    assert_eq!(read_answer(b""), Vec::<bool>::new());
    assert_eq!(read_answer(b"  \n\t"), Vec::<bool>::new());
    assert_eq!(
        read_answer(b"1 -2\n-3\t4  -  v 0"),
        vec![true, false, false, true, false, true, true]
    );
    assert_eq!(read_answer(b"-"), vec![false]);
    assert_eq!(read_answer(b"12-3"), vec![true]);
}

#[test]
fn the_values_of_a_model_come_back_through_the_names() {
    let mut cnf = CNF::new();
    let model = [true, false, false, true, true, false, true];
    for k in 0..model.len() {
        if k % 2 == 0 {
            cnf.new_named_variable(format!("x{k}"));
        } else {
            cnf.new_variable();
        }
    }
    let answer: Vec<String> = model
        .iter()
        .enumerate()
        .map(|(k, &value)| {
            if value {
                format!("{}", k + 1)
            } else {
                format!("-{}", k + 1)
            }
        })
        .collect();
    assert_eq!(
        resolve(cnf.to_dimacs().as_bytes(), answer.join(" ").as_bytes()),
        Ok(named(&[("x0", true), ("x2", false), ("x4", true), ("x6", true)]))
    );
}

#[test]
fn names_beyond_ascii_come_back_as_they_were_written() {
    let mut cnf = CNF::new();
    cnf.new_named_variable(String::from("größe"));
    cnf.new_variable();
    cnf.new_named_variable(String::from("λ → μ"));
    cnf.new_named_variable(String::from("雪"));
    assert_eq!(
        resolve(cnf.to_dimacs().as_bytes(), b"-1 2 3 -4"),
        Ok(named(&[("größe", false), ("λ → μ", true), ("雪", false)]))
    );
}

#[test]
fn a_network_is_read_back_from_its_formula() {
    let cnf = generate_game_of_life_cnf(&Args {
        input_count: 3,
        instruction_count: 1,
    });
    // The table is fed by the three inputs in their order and puts out their
    // conjunction; all other variables are given as false.
    let mut answer = String::new();
    for v in 1..=cnf.variable_count() {
        let value = matches!(v, 1 | 5 | 9 | 17);
        answer.push_str(&format!("{}{} ", if value { "" } else { "-" }, v));
    }
    let values = resolve(cnf.to_dimacs().as_bytes(), answer.as_bytes()).unwrap();
    assert_eq!(values.len(), 17);
    assert_eq!(values[0], (b"lut_0_side_0_connection_0".to_vec(), true));
    assert_eq!(values[1], (b"lut_0_side_0_connection_1".to_vec(), false));
    assert_eq!(values[4], (b"lut_0_side_1_connection_1".to_vec(), true));
    assert_eq!(values[8], (b"lut_0_side_2_connection_2".to_vec(), true));
    assert_eq!(values[9], (b"lut_0_table_0".to_vec(), false));
    assert_eq!(values[16], (b"lut_0_table_7".to_vec(), true));
}
