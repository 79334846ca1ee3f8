use probabilistic_circuits::logic::propositional::{
    count_propositional, nnf_to_dnf, propositional_to_nnf, PMut, PropositionalTree,
};
use probabilistic_circuits::solver::naive::enumerate;
use probabilistic_circuits::logic::Eval;
use probabilistic_circuits::tree::{Addr, Mapping, Tree};

fn named(tree: &mut PropositionalTree, name: &str) -> Addr {
    tree.var_named(name)
}

#[test]
fn tests_build() {
    let mut tree: PropositionalTree = Tree::new();
    let a = named(&mut tree, "A");
    tree.set_output(a);
    assert_eq!(tree.to_string(), "A");

    let mut tree: PropositionalTree = Tree::new();
    let a = named(&mut tree, "A");
    let n = tree.not(a);
    tree.set_output(n);
    assert_eq!(tree.to_string(), "\u{00AC}A");

    let mut tree: PropositionalTree = Tree::new();
    let a = named(&mut tree, "A");
    let left = tree.not(a);
    let right = named(&mut tree, "B");
    let root = tree.and(left, right);
    tree.set_output(root);
    assert_eq!(tree.to_string(), "(\u{00AC}A\u{2227}B)");

    let mut tree: PropositionalTree = Tree::new();
    let a = named(&mut tree, "A");
    let inner = tree.not(a);
    let left = tree.not(inner);
    let right = named(&mut tree, "B");
    let root = tree.or(left, right);
    tree.set_output(root);
    assert_eq!(tree.to_string(), "(\u{00AC}\u{00AC}A\u{2228}B)");

    let mut tree: PropositionalTree = Tree::new();
    let left = named(&mut tree, "A");
    let b = named(&mut tree, "B");
    let b2 = named(&mut tree, "B");
    let not_b = tree.not(b2);
    let right = tree.and(b, not_b);
    let root = tree.or(left, right);
    tree.set_output(root);
    assert_eq!(tree.to_string(), "(A\u{2228}(B\u{2227}\u{00AC}B))");
}

#[test]
fn tests_eval() {
    let mut tree: PropositionalTree = Tree::new();
    let left = named(&mut tree, "A");
    let b = named(&mut tree, "B");
    let c = named(&mut tree, "C");
    let not_c = tree.not(c);
    let right = tree.and(b, not_c);
    let root = tree.or(left, right);
    tree.set_output(root);

    for x in 0..8 {
        let assignment = vec![x & 1 != 0, x & 2 != 0, x & 4 != 0];
        let a = assignment[tree.add_named(&"A".to_string()).addr()];
        let b = assignment[tree.add_named(&"B".to_string()).addr()];
        let c = assignment[tree.add_named(&"C".to_string()).addr()];

        assert_eq!(tree.eval(&assignment), a || (b && (!c)));
    }
}

/// ¬¬((¬(¬A ∨ (¬A ∧ ((¬B ∧ C) ∧ ¬(A ∧ C))))) ∧ ¬(¬D ∨ B))
pub fn scenario(tree: &mut PropositionalTree) -> Addr {
    let a1 = named(tree, "A");
    let or_left = tree.not(a1);
    let a2 = named(tree, "A");
    let and_left = tree.not(a2);
    let b1 = named(tree, "B");
    let not_b = tree.not(b1);
    let c1 = named(tree, "C");
    let b_and_c = tree.and(not_b, c1);
    let a3 = named(tree, "A");
    let c2 = named(tree, "C");
    let a_and_c = tree.and(a3, c2);
    let not_ac = tree.not(a_and_c);
    let inner = tree.and(b_and_c, not_ac);
    let or_right = tree.and(and_left, inner);
    let big_or = tree.or(or_left, or_right);
    let left = tree.not(big_or);
    let d = named(tree, "D");
    let not_d = tree.not(d);
    let b2 = named(tree, "B");
    let small_or = tree.or(not_d, b2);
    let right = tree.not(small_or);
    let conj = tree.and(left, right);
    let once = tree.not(conj);
    tree.not(once)
}

#[test]
fn nnf() {
    let mut input: PropositionalTree = Tree::new();
    let root = scenario(&mut input);
    input.set_output(root);

    let nnf = propositional_to_nnf(&input);
    assert_eq!(nnf.to_string(), "((A∧(A∨((B∨¬C)∨(A∧C))))∧(D∧¬B))");
}

fn nodes_of(tree: &PropositionalTree) -> Vec<String> {
    (0..tree.len())
        .map(|i| format!("{:?}", tree.get(Addr::new(i))))
        .collect()
}

#[test]
fn nnf_is_idempotent_and_keeps_truth() {
    let mut input: PropositionalTree = Tree::new();
    let root = scenario(&mut input);
    input.set_output(root);
    let once = propositional_to_nnf(&input);
    let twice = propositional_to_nnf(&once);
    assert_eq!(nodes_of(&once), nodes_of(&twice));
    assert_eq!(once.output_addr(), twice.output_addr());
    assert_eq!(once.num_named(), twice.num_named());
    assert_eq!(once.to_string(), twice.to_string());
    for x in 0..16 {
        let assignment = vec![x & 1 != 0, x & 2 != 0, x & 4 != 0, x & 8 != 0];
        assert_eq!(input.eval(&assignment), once.eval(&assignment));
    }
}

#[test]
fn anonymous_variables_are_shown_by_number() {
    let mut tree: PropositionalTree = Tree::new();
    tree.add_anon();
    tree.add_anon();
    let v = tree.var(Addr::new(1));
    let n = tree.not(v);
    tree.set_output(n);
    assert_eq!(tree.to_string(), "¬x2");
}

#[test]
fn conjunction_and_disjunction_chain_from_the_left() {
    let mut tree: PropositionalTree = Tree::new();
    assert!(tree.conjunction(&[]).is_none());
    assert!(tree.disjunction(&[]).is_none());
    let a = named(&mut tree, "A");
    let b = named(&mut tree, "B");
    let c = named(&mut tree, "C");
    assert_eq!(tree.conjunction(&[a]), a);
    let all = tree.conjunction(&[a, b, c]);
    tree.set_output(all);
    assert_eq!(tree.to_string(), "((A∧B)∧C)");

    let mut tree: PropositionalTree = Tree::new();
    let a = named(&mut tree, "A");
    let b = named(&mut tree, "B");
    let c = named(&mut tree, "C");
    let any = tree.disjunction(&[a, b, c]);
    tree.set_output(any);
    assert_eq!(tree.to_string(), "((A∨B)∨C)");
}

#[test]
fn nodes_are_rewritten_in_place() {
    let mut tree: PropositionalTree = Tree::new();
    let a = named(&mut tree, "A");
    let b = named(&mut tree, "B");
    let top = tree.and(a, b);
    tree.set_output(top);
    tree.into_or(top, b, a);
    assert_eq!(tree.to_string(), "(B∨A)");
    tree.into_and(top, a, a);
    assert_eq!(tree.to_string(), "(A∧A)");
    tree.into_not(top, b);
    assert_eq!(tree.to_string(), "¬B");
    assert_eq!(tree.get(b).node.parent, top);
    let c = tree.add_named(&"C".to_string());
    tree.into_var(top, c);
    assert_eq!(tree.to_string(), "C");
    let copy = tree.clone_id(a);
    assert_eq!(copy, Addr::new(3));
    tree.set_output(copy);
    assert_eq!(tree.to_string(), "A");
}

fn naive_count(tree: &PropositionalTree) -> usize {
    let mut all = enumerate(tree);
    all.count()
}

#[test]
fn counting_over_the_normal_form_agrees_with_the_naive_count() {
    let mut input: PropositionalTree = Tree::new();
    let root = scenario(&mut input);
    input.set_output(root);
    // A ∧ D ∧ ¬B with C free
    assert_eq!(count_propositional(&input), 2);
    assert_eq!(naive_count(&input), 2);

    // (A ∨ B) ∧ (C ∨ ¬A) ∧ ¬(B ∧ C)
    let mut tree: PropositionalTree = Tree::new();
    let a = named(&mut tree, "A");
    let b = named(&mut tree, "B");
    let first = tree.or(a, b);
    let c = named(&mut tree, "C");
    let a2 = named(&mut tree, "A");
    let not_a = tree.not(a2);
    let second = tree.or(c, not_a);
    let b2 = named(&mut tree, "B");
    let c2 = named(&mut tree, "C");
    let both = tree.and(b2, c2);
    let third = tree.not(both);
    let left = tree.and(first, second);
    let root = tree.and(left, third);
    tree.set_output(root);
    assert_eq!(naive_count(&tree), 2);
    assert_eq!(count_propositional(&tree), 2);

    // a contradiction and a tautology
    let mut tree: PropositionalTree = Tree::new();
    let a = named(&mut tree, "A");
    let a2 = named(&mut tree, "A");
    let not_a = tree.not(a2);
    let never = tree.and(a, not_a);
    tree.set_output(never);
    assert_eq!(count_propositional(&tree), 0);
    let a3 = named(&mut tree, "A");
    let a4 = named(&mut tree, "A");
    let not_a2 = tree.not(a4);
    let always = tree.or(a3, not_a2);
    tree.set_output(always);
    tree.add_named(&"B".to_string());
    assert_eq!(count_propositional(&tree), 4);
    assert_eq!(naive_count(&tree), 4);
}

#[test]
fn counting_agrees_on_every_small_formula_of_a_family() {
    // formulas over three variables, built from a number
    for code in 0..200usize {
        let mut tree: PropositionalTree = Tree::new();
        tree.add_named(&"A".to_string());
        tree.add_named(&"B".to_string());
        tree.add_named(&"C".to_string());
        let mut bits = code;
        let mut stack: Vec<Addr> = Vec::new();
        for step in 0..6 {
            let kind = bits % 4;
            bits /= 4;
            if stack.len() < 2 || kind == 0 {
                let v = tree.var(Addr::new((code + step) % 3));
                stack.push(v);
            } else if kind == 1 {
                let top = stack.pop().unwrap();
                stack.push(tree.not(top));
            } else {
                let right = stack.pop().unwrap();
                let left = stack.pop().unwrap();
                stack.push(if kind == 2 {
                    tree.and(left, right)
                } else {
                    tree.or(left, right)
                });
            }
        }
        let mut root = stack.pop().unwrap();
        while let Some(left) = stack.pop() {
            root = tree.and(left, root);
        }
        tree.set_output(root);
        assert_eq!(count_propositional(&tree), naive_count(&tree), "{}", tree.to_string());
    }
}

#[test]
fn subtrees_are_copied_from_another_arena() {
    let mut source: PropositionalTree = Tree::new();
    let a = named(&mut source, "A");
    let b = named(&mut source, "B");
    let not_b = source.not(b);
    let both = source.and(a, not_b);
    source.set_output(both);
    let mut target: PropositionalTree = Tree::new();
    target.copy_named(&source);
    let c = named(&mut target, "C");
    let copy = target.clone(&source.output());
    let root = target.or(c, copy);
    target.set_output(root);
    assert_eq!(target.to_string(), "(C∨(A∧¬B))");
    assert_eq!(target.len(), 6);
}

#[test]
fn disjunctive_normal_form_has_one_term_for_each_clause() {
    // (A ∨ B) ∧ (¬A ∨ C)
    let mut tree: PropositionalTree = Tree::new();
    let a = named(&mut tree, "A");
    let b = named(&mut tree, "B");
    let first = tree.or(a, b);
    let a2 = named(&mut tree, "A");
    let not_a = tree.not(a2);
    let c = named(&mut tree, "C");
    let second = tree.or(not_a, c);
    let root = tree.and(first, second);
    tree.set_output(root);
    assert!(tree.check());
    assert!(tree.links_hold());
    let dnf = nnf_to_dnf(&tree);
    // A∧¬A is left out
    assert_eq!(dnf.to_string(), "(((A∧C)∨(¬A∧B))∨(B∧C))");
    assert!(dnf.check());
    assert!(dnf.links_hold());
    for x in 0..8 {
        let assignment = vec![x & 1 != 0, x & 2 != 0, x & 4 != 0];
        assert_eq!(tree.eval(&assignment), dnf.eval(&assignment));
    }
    // the tree itself is as it was
    assert_eq!(tree.to_string(), "((A∨B)∧(¬A∨C))");

    // a tree whose links are not in order is normalised all the same
    let mut shared: PropositionalTree = Tree::new();
    let a = named(&mut shared, "A");
    let b = named(&mut shared, "B");
    let either = shared.or(a, b);
    let twice = shared.and(either, either);
    shared.set_output(twice);
    assert!(!shared.links_hold());
    assert!(shared.check());
    assert_eq!(nnf_to_dnf(&shared).to_string(), "((A∨(A∧B))∨B)");

    // a contradiction has no term
    let mut never: PropositionalTree = Tree::new();
    let a = named(&mut never, "A");
    let a2 = named(&mut never, "A");
    let not_a = never.not(a2);
    let root = never.and(a, not_a);
    never.set_output(root);
    let none = nnf_to_dnf(&never);
    assert!(none.output_addr().is_none());
    assert_eq!(none.len(), 0);
    assert!(!none.check());
    assert_eq!(none.num_named(), 1);
}

#[test]
fn trees_are_checked_before_use() {
    let mut tree: PropositionalTree = Tree::new();
    assert!(!tree.check());
    let a = named(&mut tree, "A");
    let b = tree.var(Addr::new(5));
    let both = tree.and(a, b);
    tree.set_output(a);
    assert!(tree.check());
    tree.set_output(both);
    // a variable that is not in the symbol table
    assert!(!tree.check());
    tree.into_var(b, Addr::new(0));
    assert!(tree.check());
    // a node below itself
    tree.into_and(both, a, both);
    assert!(!tree.check());
    assert!(!tree.links_hold());
    // a negation with two operands
    tree.into_and(both, a, b);
    assert!(tree.check());
    let copy = tree.duplicate();
    assert_eq!(copy.to_string(), tree.to_string());
    assert_eq!(copy.len(), tree.len());
    assert_eq!(copy.num_named(), tree.num_named());
    tree.rewrite(both, probabilistic_circuits::logic::propositional::PLogic::Not, &[a, b]);
    assert!(!tree.check());
    assert!(copy.check());
}

#[test]
fn the_distributive_law_rewrites_in_place_and_keeps_the_links() {
    let mut tree: PropositionalTree = Tree::new();
    let a = tree.var_named("A");
    let b = tree.var_named("B");
    let c = tree.var_named("C");
    let either = tree.or(b, c);
    let d = tree.var_named("D");
    let both = tree.and(a, either);
    let root = tree.or(both, d);
    tree.set_output(root);
    assert!(tree.links_hold());
    assert!(tree.check());
    let before = tree.len();
    tree.distribute();
    assert_eq!(tree.output_addr(), root);
    assert!(tree.links_hold());
    assert!(tree.check());
    assert!(tree.len() > before);
    assert_eq!(tree.to_string(), "(((A∧B)∨(A∧C))∨D)");
    let mut plain: PropositionalTree = Tree::new();
    let a = plain.var_named("A");
    let b = plain.var_named("B");
    let root = plain.and(a, b);
    plain.set_output(root);
    plain.distribute();
    assert_eq!(plain.len(), 3);
    assert_eq!(plain.to_string(), "(A∧B)");
}
