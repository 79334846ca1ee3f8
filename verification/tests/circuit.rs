use probabilistic_circuits::logic::circuit::{
    enumerate_variables, first_order_to_circuit, propositional_to_circuit, PCMut,
    ProbabilisticCircuitTree, UNIT_WEIGHT,
};
use probabilistic_circuits::logic::first_order::{FOMut, FirstOrderTree};
use probabilistic_circuits::logic::propositional::{PMut, PropositionalTree};
use probabilistic_circuits::logic::Eval;
use probabilistic_circuits::solver::domain::Integer;
use probabilistic_circuits::tree::{Addr, Mapping, Tree};

/// (A·¬B) + (¬A + C)
fn circuit() -> ProbabilisticCircuitTree {
    let mut pc: ProbabilisticCircuitTree = Tree::new();
    let a = pc.var_named("A", false);
    let not_b = pc.var_named("B", true);
    let left = pc.prod(a, not_b);
    let not_a = pc.var_named("A", true);
    let c = pc.var_named("C", false);
    let right = pc.sum(not_a, c);
    let root = pc.sum(left, right);
    pc.set_output(root);
    pc
}

#[test]
fn eval() {
    let pc = circuit();
    assert_eq!(pc.to_string(), "((A*¬B)+(¬A+C))");

    // a negated leaf is worth one where its variable is false
    assert_eq!(pc.eval(&vec![false, false, false]), Some(1));
    assert_eq!(pc.eval(&vec![true, false, false]), Some(1));
    assert_eq!(pc.eval(&vec![false, true, false]), Some(1));
    assert_eq!(pc.eval(&vec![true, true, false]), Some(0));
    assert_eq!(pc.eval(&vec![false, false, true]), Some(2));
    assert_eq!(pc.eval(&vec![true, false, true]), Some(2));
    assert_eq!(pc.eval(&vec![false, true, true]), Some(2));
    assert_eq!(pc.eval(&vec![true, true, true]), Some(1));
}

#[test]
fn eval_reports_what_sixty_four_bits_do_not_hold() {
    let mut pc: ProbabilisticCircuitTree = Tree::new();
    pc.add_anon();
    let one = pc.var(Addr::new(0));
    let other = pc.var(Addr::new(0));
    let mut top = pc.sum(one, other);
    pc.set_output(top);
    assert_eq!(pc.eval(&vec![true]), Some(2));
    // squaring six times: two to the sixty-fourth
    for round in 0..6 {
        let again = pc.copy(top);
        top = pc.prod(top, again);
        pc.set_output(top);
        if round < 5 {
            assert_eq!(pc.eval(&vec![true]), Some(1u64 << (2u32 << round)));
        }
    }
    assert_eq!(pc.eval(&vec![true]), None);
    assert_eq!(pc.eval(&vec![false]), Some(0));
    let zero = pc.not_var(Addr::new(0));
    let product = pc.prod(top, zero);
    pc.set_output(product);
    assert_eq!(pc.eval(&vec![true]), Some(0));
}

fn scenario(tree: &mut PropositionalTree) -> Addr {
    let a1 = tree.var_named("A");
    let or_left = tree.not(a1);
    let a2 = tree.var_named("A");
    let and_left = tree.not(a2);
    let b1 = tree.var_named("B");
    let not_b = tree.not(b1);
    let c1 = tree.var_named("C");
    let b_and_c = tree.and(not_b, c1);
    let a3 = tree.var_named("A");
    let c2 = tree.var_named("C");
    let a_and_c = tree.and(a3, c2);
    let not_ac = tree.not(a_and_c);
    let inner = tree.and(b_and_c, not_ac);
    let or_right = tree.and(and_left, inner);
    let big_or = tree.or(or_left, or_right);
    let left = tree.not(big_or);
    let d = tree.var_named("D");
    let not_d = tree.not(d);
    let b2 = tree.var_named("B");
    let small_or = tree.or(not_d, b2);
    let right = tree.not(small_or);
    let conj = tree.and(left, right);
    let once = tree.not(conj);
    tree.not(once)
}

#[test]
fn compilation() {
    let mut input: PropositionalTree = Tree::new();
    let root = scenario(&mut input);
    input.set_output(root);

    let pc = propositional_to_circuit(&input);
    assert_eq!(pc.to_string(), "((A*(A+((B+¬C)+(A*C))))*(D*¬B))");
}

#[test]
fn circuit_is_worth_something_where_the_formula_is_true() {
    let mut input: PropositionalTree = Tree::new();
    let root = scenario(&mut input);
    input.set_output(root);
    let pc = propositional_to_circuit(&input);
    for x in 0..16 {
        let assignment = vec![x & 1 != 0, x & 2 != 0, x & 4 != 0, x & 8 != 0];
        let worth = pc.eval(&assignment).unwrap();
        assert_eq!(worth > 0, input.eval(&assignment));
        if worth <= 1 {
            assert_eq!(worth == 1, input.eval(&assignment));
        }
    }
    // negated leaf: ¬A at A = false
    let mut input: PropositionalTree = Tree::new();
    let a = input.var_named("A");
    let n = input.not(a);
    input.set_output(n);
    let pc = propositional_to_circuit(&input);
    assert_eq!(pc.to_string(), "¬A");
    assert_eq!(pc.eval(&vec![false]), Some(1));
    assert_eq!(pc.eval(&vec![true]), Some(0));
    // A ∨ A is worth two where A is true
    let mut input: PropositionalTree = Tree::new();
    let a = input.var_named("A");
    let b = input.var_named("A");
    let o = input.or(a, b);
    input.set_output(o);
    let pc = propositional_to_circuit(&input);
    assert_eq!(pc.eval(&vec![true]), Some(2));
}

#[test]
fn tests_compilation_fol() {
    let mut input: FirstOrderTree = Tree::new();
    let edge = input.pred_named("Edge", &["x", "x"]);
    let no_loop = input.not(edge);
    let left = input.every_named("x", no_loop);
    let xy = input.pred_named("Edge", &["x", "y"]);
    let not_xy = input.not(xy);
    let yx = input.pred_named("Edge", &["y", "x"]);
    let implies = input.or(not_xy, yx);
    let inner = input.every_named("y", implies);
    let right = input.every_named("x", inner);
    let root = input.and(left, right);
    input.set_output(root);

    let domains = [Integer {
        vars: vec![
            input.get_id(&"x".to_string()),
            input.get_id(&"y".to_string()),
        ],
        card: 3,
    }];
    let circuit = first_order_to_circuit(&input, &domains).unwrap();
    assert_eq!(circuit.num_named(), 9);
    let text = circuit.to_string();
    assert!(text.starts_with("(((¬Edge(0, 0)*¬Edge(1, 1))*¬Edge(2, 2))*"));
    let mar = circuit.eval(&vec![true, true, true, true, true, true, true, true, true]);
    assert_eq!(mar, Some(0));
    let none = circuit.eval(&vec![false; 9]);
    assert_eq!(none, Some(1));

    // the direct way and the way over the grounded formula give one circuit
    let prop =
        probabilistic_circuits::logic::first_order::first_order_to_propositional(&input, &domains)
            .unwrap();
    let over = propositional_to_circuit(&prop);
    assert_eq!(over.to_string(), text);
    assert_eq!(over.len(), circuit.len());
}

#[test]
fn weighted_sums_show_their_weights() {
    let half: u32 = 0x3F00_0000;
    let mut pc: ProbabilisticCircuitTree = Tree::new();
    let a = pc.var_named("A", false);
    let b = pc.var_named("B", false);
    let c = pc.var_named("C", false);
    let top = pc.sum_n(&[(a, half), (b, UNIT_WEIGHT), (c, half)]);
    pc.set_output(top);
    let mut labels = vec![(String::new(), String::new()); pc.len()];
    labels[3] = ("0.500".to_string(), "1.000".to_string());
    labels[4] = ("1.000".to_string(), "0.500".to_string());
    assert_eq!(pc.to_string_with(&labels), "((0.500·A+B)+0.500·C)");
    assert_eq!(pc.to_string(), "((·A+B)+·C)");
    assert!(pc.sum_n(&[]).is_none());
    assert_eq!(pc.sum_n(&[(a, half)]), a);
    assert!(pc.prod_n(&[]).is_none());
    let product = pc.prod_n(&[a, b, c]);
    pc.set_output(product);
    assert_eq!(pc.to_string(), "((A*B)*C)");
    let weighted = pc.sum_w(half, a, UNIT_WEIGHT, b);
    pc.set_output(weighted);
    assert_eq!(pc.to_string_with(&vec![]), "(·A+B)");
}

#[test]
fn only_circuits_with_weights_of_one_are_unweighted() {
    let half: u32 = 0x3F00_0000;
    let two: u32 = 0x4000_0000;
    assert!(circuit().unweighted());
    let mut pc: ProbabilisticCircuitTree = Tree::new();
    let a = pc.var_named("A", false);
    let b = pc.var_named("B", false);
    let plain = pc.sum(a, b);
    pc.set_output(plain);
    assert!(pc.check());
    assert!(pc.unweighted());
    assert_eq!(pc.eval(&vec![true, true]), Some(2));
    let a = pc.var_named("A", false);
    let b = pc.var_named("B", false);
    let weighted = pc.sum_w(half, a, two, b);
    pc.set_output(weighted);
    assert!(pc.check());
    assert!(!pc.unweighted());
    let c = pc.var_named("A", false);
    let over = pc.prod(weighted, c);
    pc.set_output(over);
    assert!(!pc.unweighted());
    let left_only = pc.var_named("B", true);
    let d = pc.var_named("A", true);
    let one_side = pc.sum_w(UNIT_WEIGHT, left_only, half, d);
    pc.set_output(one_side);
    assert!(!pc.unweighted());
}

#[test]
fn variables_are_enumerated_by_bits() {
    let vars = vec![Addr::new(5), Addr::new(7)];
    let rows = enumerate_variables(vars).unwrap();
    assert_eq!(
        rows,
        vec![
            vec![(Addr::new(5), false), (Addr::new(7), false)],
            vec![(Addr::new(5), true), (Addr::new(7), false)],
            vec![(Addr::new(5), false), (Addr::new(7), true)],
            vec![(Addr::new(5), true), (Addr::new(7), true)],
        ]
    );
    assert_eq!(enumerate_variables(vec![]).unwrap(), vec![vec![]]);
    let many: Vec<Addr> = (0..usize::BITS as usize).map(Addr::new).collect();
    assert!(enumerate_variables(many).is_none());
}

#[test]
fn circuits_are_checked_before_use() {
    let pc = circuit();
    assert!(pc.check());
    assert!(pc.links_hold());
    let mut broken: ProbabilisticCircuitTree = Tree::new();
    assert!(!broken.check());
    let a = broken.var(Addr::new(0));
    broken.set_output(a);
    assert!(!broken.check());
    broken.add_anon();
    assert!(broken.check());
    let half = broken.prod(a, Addr::none());
    broken.set_output(half);
    assert!(!broken.check());
}
