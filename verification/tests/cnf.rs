use probabilistic_circuits::io::cnf::{
    assemble, build_cnf, load_string, not_empty_ok, parse_count, parse_literal, read_clauses,
    read_literals,
};
use probabilistic_circuits::logic::Eval;
use probabilistic_circuits::solver::naive::{countable, enumerate};
use probabilistic_circuits::tree::Mapping;

fn vec_to_u32(x: Vec<bool>) -> u32 {
    x.iter()
        .enumerate()
        .map(|(i, &v)| (if v { 1 } else { 0 }) << i)
        .sum()
}

#[test]
fn test_cnf_parser() {
    let cnf = load_string(
        r#"
c Integration test of the CNF loader (unordered graph with 3 nodes and no self loops)
c by Astrid Klipfel
c
p cnf 9 9
-1 0
-5 0
-9 0
2 -4 0
-2 4 0
3 -7 0
-3 7 0
6 -8 0
-6 8 0
"#
        .to_string(),
    )
    .unwrap();

    let mut all = enumerate(&cnf);
    let mut found: Vec<u32> = Vec::new();
    while let Some(assignment) = all.next() {
        found.push(vec_to_u32(assignment));
    }
    assert_eq!(
        found,
        vec![
            0b000000000,
            0b000001010,
            0b001000100,
            0b001001110,
            0b010100000,
            0b010101010,
            0b011100100,
            0b011101110
        ]
    );
    assert_eq!(found, vec![0, 10, 68, 78, 160, 170, 228, 238]);
    assert_eq!(cnf.num_named(), 9);
    assert_eq!(
        cnf.to_string(),
        "(¬x1∧(¬x5∧(¬x9∧((x2∨¬x4)∧((¬x2∨x4)∧((x3∨¬x7)∧((¬x3∨x7)∧((x6∨¬x8)∧(¬x6∨x8)))))))))"
    );
}

#[test]
fn cnf_errors() {
    assert_eq!(
        load_string("1 2 0\n".to_string()).err(),
        Some("Cannot find the problem line")
    );
    assert_eq!(
        load_string("p cnf 2 2\n1 2 0\n".to_string()).err(),
        Some("Inconsistent number of clauses")
    );
    assert_eq!(
        load_string("p cnf 2 1\n1 2 0\n-1 0\n".to_string()).err(),
        Some("Inconsistent number of clauses")
    );
    assert_eq!(
        load_string("p cnf 99999999999999999999999999 1\n1 0\n".to_string()).err(),
        Some("Cannot find the problem line")
    );
    assert_eq!(
        load_string("p cnf 2 1\n99999999999 0\n".to_string()).err(),
        Some("Inconsistent number of clauses")
    );
    assert_eq!(
        load_string("p cnf 2 0\n".to_string()).err(),
        Some("Inconsistent number of clauses")
    );
    let small = load_string("P CNF 2 1\n1 -2 0\n".to_string()).unwrap();
    assert_eq!(small.to_string(), "(x1∨¬x2)");
}

#[test]
fn numbers_are_read_exactly() {
    assert_eq!(parse_count("0"), Some(0));
    assert_eq!(parse_count("007"), Some(7));
    assert_eq!(parse_count("1234567890"), Some(1234567890));
    assert_eq!(parse_count(""), None);
    assert_eq!(parse_count("12a"), None);
    assert_eq!(parse_count("-1"), None);
    assert_eq!(parse_count("99999999999999999999"), None);
    assert_eq!(parse_literal("5"), Some(5));
    assert_eq!(parse_literal("-5"), Some(-5));
    assert_eq!(parse_literal("-0"), Some(0));
    assert_eq!(parse_literal("2147483647"), Some(i32::MAX));
    assert_eq!(parse_literal("2147483648"), None);
    assert_eq!(parse_literal("-2147483648"), Some(i32::MIN));
    assert_eq!(parse_literal("-2147483649"), None);
    assert_eq!(parse_literal("-"), None);
    assert_eq!(parse_literal("--1"), None);
    assert_eq!(parse_literal(""), None);
    assert_eq!(not_empty_ok(Vec::<i32>::new()), None);
    assert_eq!(not_empty_ok(vec![1]), Some(vec![1]));
}

#[test]
fn clauses_are_built_to_the_right() {
    let tree = build_cnf(3, &vec![vec![1, -2, 3], vec![-1], vec![2, 3]]);
    assert_eq!(tree.to_string(), "((x1∨(¬x2∨x3))∧(¬x1∧(x2∨x3)))");
    assert_eq!(tree.num_named(), 3);
    assert_eq!(tree.eval(&vec![false, false, true]), true);
    assert_eq!(tree.eval(&vec![true, false, true]), false);
    let empty = build_cnf(2, &vec![]);
    assert!(empty.output_addr().is_none());
    assert_eq!(empty.len(), 0);
    assert!(countable(3));
    assert!(!countable(usize::BITS as usize));
}

#[test]
fn enumeration_goes_by_the_numbers_of_the_assignments() {
    let tree = build_cnf(2, &vec![vec![1, 2]]);
    let mut all = enumerate(&tree);
    assert_eq!(all.domain_size(), 4);
    assert_eq!(all.next(), Some(vec![true, false]));
    assert_eq!(all.next(), Some(vec![false, true]));
    assert_eq!(all.count(), 1);
    assert_eq!(all.next(), None);
    let mut again = enumerate(&tree);
    assert_eq!(again.count(), 3);
}

fn strings(list: &[&str]) -> Vec<String> {
    list.iter().map(|s| s.to_string()).collect()
}

#[test]
fn literals_are_read_in_their_order() {
    assert_eq!(read_literals(&strings(&[])), Some(vec![]));
    assert_eq!(read_literals(&strings(&["1", "-2", "30"])), Some(vec![1, -2, 30]));
    assert_eq!(read_literals(&strings(&["1", "x"])), None);
    assert_eq!(read_literals(&strings(&["2147483648"])), None);
    assert_eq!(read_literals(&strings(&["-2147483648"])), Some(vec![i32::MIN]));
}

#[test]
fn pieces_without_literals_are_no_clauses() {
    let found = vec![strings(&["1", "-2"]), strings(&[]), strings(&["3"])];
    assert_eq!(read_clauses(&found), Some(vec![vec![1, -2], vec![3]]));
    assert_eq!(read_clauses(&vec![]), Some(vec![]));
    let unread = vec![strings(&["1"]), strings(&["1-"])];
    assert_eq!(read_clauses(&unread), None);
}

#[test]
fn clauses_are_counted_against_the_problem_line() {
    let found = vec![strings(&["1", "-2"]), strings(&[]), strings(&["3"])];
    let tree = assemble(3, 2, &found).unwrap();
    assert_eq!(tree.num_named(), 3);
    assert_eq!(tree.to_string(), "((x1∨¬x2)∧x3)");
    let same = build_cnf(3, &vec![vec![1, -2], vec![3]]);
    assert_eq!(tree.len(), same.len());
    assert_eq!(tree.to_string(), same.to_string());
    assert_eq!(assemble(3, 3, &found).err(), Some("Inconsistent number of clauses"));
    assert_eq!(assemble(3, 1, &found).err(), Some("Inconsistent number of clauses"));
    assert_eq!(assemble(3, 0, &vec![]).err(), Some("Inconsistent number of clauses"));
    let unread = vec![strings(&["1"]), strings(&["one"])];
    assert_eq!(assemble(3, 2, &unread).err(), Some("Inconsistent number of clauses"));
}
