use probabilistic_circuits::logic::first_order::ground::Grounded;
use probabilistic_circuits::logic::first_order::{
    first_order_to_propositional, to_nnf, FOMut, FirstOrderTree,
};
use probabilistic_circuits::logic::propositional::{count_propositional, PropositionalTree};
use probabilistic_circuits::logic::Eval;
use probabilistic_circuits::solver::domain::{Boolean, Domain, Integer};
use probabilistic_circuits::solver::naive::enumerate;
use probabilistic_circuits::logic::first_order::FOLogic;
use probabilistic_circuits::tree::{Addr, LinkingNode, Mapping, Tree};

#[test]
fn build() {
    let mut tree: FirstOrderTree = Tree::new();
    let a = tree.pred_named("A", &[]);
    tree.set_output(a);
    assert_eq!(tree.to_string(), "A()");

    let mut tree: FirstOrderTree = Tree::new();
    let inner = tree.pred_named("A", &["x"]);
    let root = tree.exist_named("x", inner);
    tree.set_output(root);
    assert_eq!(tree.to_string(), "∃x:A(x)");

    let tree = symmetric_without_loops();
    assert_eq!(
        tree.to_string(),
        "(∀x:¬Edge(x, x)∧∀x:∀y:(¬Edge(x, y)∨Edge(y, x)))"
    );
}

/// ∀x: ¬Edge(x,x) ∧ ∀x:∀y: (Edge(x,y) → Edge(y,x))
fn symmetric_without_loops() -> FirstOrderTree {
    let mut tree: FirstOrderTree = Tree::new();
    let edge = tree.pred_named("Edge", &["x", "x"]);
    let no_loop = tree.not(edge);
    let left = tree.every_named("x", no_loop);
    let xy = tree.pred_named("Edge", &["x", "y"]);
    let not_xy = tree.not(xy);
    let yx = tree.pred_named("Edge", &["y", "x"]);
    let implies = tree.or(not_xy, yx);
    let inner = tree.every_named("y", implies);
    let right = tree.every_named("x", inner);
    let root = tree.and(left, right);
    tree.set_output(root);
    tree
}

fn domain(tree: &FirstOrderTree, names: &[&str], card: usize) -> Integer {
    Integer {
        vars: names
            .iter()
            .map(|n| tree.get_id(&n.to_string()))
            .collect(),
        card,
    }
}

fn count(prop: &PropositionalTree) -> usize {
    let mut all = enumerate(prop);
    all.count()
}

#[test]
fn compilation_fol() {
    let input = symmetric_without_loops();

    let prop = first_order_to_propositional(&input, &[domain(&input, &["x", "y"], 4)]).unwrap();
    assert_eq!(prop.num_named(), 16);
    assert_eq!(count(&prop), 64);
}

#[test]
fn grounding_names_the_atoms_in_row_major_order() {
    let input = symmetric_without_loops();
    let prop = first_order_to_propositional(&input, &[domain(&input, &["x", "y"], 2)]).unwrap();
    let names: Vec<String> = (0..prop.num_named())
        .map(|i| prop.get_named(Addr::new(i)).unwrap().clone())
        .collect();
    assert_eq!(
        names,
        vec!["Edge(0, 0)", "Edge(0, 1)", "Edge(1, 0)", "Edge(1, 1)"]
    );
    assert_eq!(
        prop.to_string(),
        "((¬Edge(0, 0)∧¬Edge(1, 1))∧(((¬Edge(0, 0)∨Edge(0, 0))∧(¬Edge(0, 1)∨Edge(1, 0)))∧((¬Edge(1, 0)∨Edge(0, 1))∧(¬Edge(1, 1)∨Edge(1, 1)))))"
    );
    // symmetric relations without loops on two points: the empty one and the
    // full one
    assert_eq!(count(&prop), 2);
}

#[test]
fn existential_quantifiers_become_disjunctions() {
    let mut tree: FirstOrderTree = Tree::new();
    let r = tree.pred_named("R", &["x"]);
    let s = tree.pred_named("S", &["x", "y"]);
    let both = tree.and(r, s);
    let inner = tree.exist_named("y", both);
    let root = tree.exist_named("x", inner);
    tree.set_output(root);
    let domains = [domain(&tree, &["x"], 2), domain(&tree, &["y"], 3)];
    let prop = first_order_to_propositional(&tree, &domains).unwrap();
    assert_eq!(prop.num_named(), 2 + 6);
    assert_eq!(
        prop.to_string(),
        "((((R(0)∧S(0, 0))∨(R(0)∧S(0, 1)))∨(R(0)∧S(0, 2)))∨(((R(1)∧S(1, 0))∨(R(1)∧S(1, 1)))∨(R(1)∧S(1, 2))))"
    );
    let mut model = vec![false; 8];
    assert_eq!(prop.eval(&model), false);
    model[1] = true;
    model[2 + 5] = true;
    assert_eq!(prop.eval(&model), true);
    model[1] = false;
    assert_eq!(prop.eval(&model), false);
}

#[test]
fn grounding_reports_what_is_wrong() {
    // arity
    let mut tree: FirstOrderTree = Tree::new();
    let one = tree.pred_named("P", &["x"]);
    let two = tree.pred_named("P", &["x", "x"]);
    let both = tree.and(one, two);
    let root = tree.every_named("x", both);
    tree.set_output(root);
    let d = [domain(&tree, &["x"], 2)];
    assert_eq!(
        first_order_to_propositional(&tree, &d).err(),
        Some("Arguments don't match")
    );

    let mut tree: FirstOrderTree = Tree::new();
    let two = tree.pred_named("P", &["x", "x"]);
    let one = tree.pred_named("P", &["x"]);
    let both = tree.and(two, one);
    let root = tree.every_named("x", both);
    tree.set_output(root);
    let d = [domain(&tree, &["x"], 2)];
    assert_eq!(
        first_order_to_propositional(&tree, &d).err(),
        Some("Arguments don't match")
    );

    // domains
    let mut tree: FirstOrderTree = Tree::new();
    let px = tree.pred_named("P", &["x"]);
    let py = tree.pred_named("P", &["y"]);
    let both = tree.and(px, py);
    let inner = tree.every_named("y", both);
    let root = tree.every_named("x", inner);
    tree.set_output(root);
    let d = [domain(&tree, &["x"], 2), domain(&tree, &["y"], 2)];
    assert_eq!(
        first_order_to_propositional(&tree, &d).err(),
        Some("Domains didn't match")
    );
    let d = [domain(&tree, &["x"], 2)];
    assert_eq!(
        first_order_to_propositional(&tree, &d).err(),
        Some("Unknown domain")
    );

    // a chain of arguments with something else in it
    let mut tree: FirstOrderTree = Tree::new();
    let px = tree.pred_named("P", &["x"]);
    let wrong = tree.not(px);
    let p = tree.add_named(&"Q".to_string());
    let head = tree.attach_pair(
        FOLogic::Predicate { id: p },
        wrong,
        Addr::none(),
    );
    tree.set_output(head);
    let mut target: PropositionalTree = Tree::new();
    let d = [domain(&tree, &["x"], 2)];
    assert_eq!(
        Grounded::ground(&tree, &mut target, &d).err(),
        Some("Invalid predicate")
    );
    assert_eq!(target.num_named(), 0);

    // expansion
    let mut tree: FirstOrderTree = Tree::new();
    let px = tree.pred_named("P", &["x"]);
    tree.set_output(px);
    let d = [domain(&tree, &["x"], 2)];
    assert_eq!(
        first_order_to_propositional(&tree, &d).err(),
        Some("Unbound variable")
    );
    let mut tree: FirstOrderTree = Tree::new();
    let px = tree.pred_named("P", &["x"]);
    let root = tree.every_named("x", px);
    tree.set_output(root);
    let d = [domain(&tree, &["x"], 0)];
    assert_eq!(
        first_order_to_propositional(&tree, &d).err(),
        Some("Empty domain")
    );
    let mut tree: FirstOrderTree = Tree::new();
    let p = tree.pred_named("P", &[]);
    let root = tree.every_named("z", p);
    tree.set_output(root);
    assert_eq!(
        first_order_to_propositional(&tree, &[]).err(),
        Some("Unknown domain")
    );
}

#[test]
fn grounded_positions_are_row_major() {
    let ground = Grounded {
        id: Addr::new(0),
        domains: vec![
            Integer { vars: vec![], card: 2 },
            Integer { vars: vec![], card: 3 },
            Integer { vars: vec![], card: 5 },
        ],
        grounded: (100..130).map(Addr::new).collect(),
    };
    assert_eq!(ground.len(), 30);
    assert_eq!(ground.checked_len(), Some(30));
    assert_eq!(ground.get_id(&[0, 0, 0]), Addr::new(100));
    assert_eq!(ground.get_id(&[0, 0, 4]), Addr::new(104));
    assert_eq!(ground.get_id(&[0, 1, 0]), Addr::new(105));
    assert_eq!(ground.get_id(&[1, 2, 4]), Addr::new(129));
    assert_eq!(ground.get_id(&[1, 0, 3]), Addr::new(118));
    assert_eq!(ground.format(&"P".to_string(), 0), "P(0, 0, 0)");
    assert_eq!(ground.format(&"P".to_string(), 18), "P(1, 0, 3)");
    assert_eq!(ground.format(&"P".to_string(), 29), "P(1, 2, 4)");
    for idx in 0..30 {
        let name = ground.format(&"P".to_string(), idx);
        let digits: Vec<usize> = name[2..name.len() - 1]
            .split(", ")
            .map(|d| d.parse().unwrap())
            .collect();
        assert_eq!(ground.get_id(&digits), Addr::new(100 + idx));
    }
    let nullary = Grounded {
        id: Addr::new(0),
        domains: vec![],
        grounded: vec![Addr::new(7)],
    };
    assert_eq!(nullary.len(), 1);
    assert_eq!(nullary.get_id(&[]), Addr::new(7));
    assert_eq!(nullary.format(&"Q".to_string(), 0), "Q()");
    let empty = Grounded {
        id: Addr::new(0),
        domains: vec![
            Integer { vars: vec![], card: usize::MAX },
            Integer { vars: vec![], card: usize::MAX },
            Integer { vars: vec![], card: 0 },
        ],
        grounded: vec![],
    };
    assert_eq!(empty.len(), 0);
    let huge = Grounded {
        id: Addr::new(0),
        domains: vec![
            Integer { vars: vec![], card: usize::MAX },
            Integer { vars: vec![], card: 2 },
        ],
        grounded: vec![],
    };
    assert_eq!(huge.checked_len(), None);
}

#[test]
fn domains() {
    let x = Addr::new(3);
    let d = Integer { vars: vec![Addr::new(1), x], card: 3 };
    assert_eq!(d.card(), 3);
    assert_eq!(d.iter(), vec![0, 1, 2]);
    assert!(d.contains(x));
    assert!(!d.contains(Addr::new(2)));
    assert!(d == d.copy());
    assert!(d != Integer { vars: vec![Addr::new(1), x], card: 4 });
    assert!(d != Integer { vars: vec![x, Addr::new(1)], card: 3 });
    let domains = [Integer { vars: vec![Addr::new(1)], card: 9 }, d.clone()];
    assert_eq!(Grounded::get_domain(x, &domains), Some(&domains[1]));
    assert_eq!(Grounded::get_domain(Addr::new(1), &domains), Some(&domains[0]));
    assert_eq!(Grounded::get_domain(Addr::new(8), &domains), None);
    assert_eq!(Boolean {}.card(), 2);
    assert_eq!(Boolean {}.iter(), vec![false, true]);
}

#[test]
fn equivalence_classes_have_the_models_that_the_naive_solver_finds() {
    // ∀x: ¬Edge(x,x) ∧ ∀x∀y: (Edge(x,y) → Edge(y,x))
    //   ∧ ∀x∀y: (Edge(x,y) → ¬(Black(x) ↔ Black(y)))
    let mut tree: FirstOrderTree = Tree::new();
    let edge = tree.pred_named("Edge", &["x", "x"]);
    let no_loop = tree.not(edge);
    let first = tree.every_named("x", no_loop);

    let xy = tree.pred_named("Edge", &["x", "y"]);
    let not_xy = tree.not(xy);
    let yx = tree.pred_named("Edge", &["y", "x"]);
    let symmetric = tree.or(not_xy, yx);
    let inner = tree.every_named("y", symmetric);
    let second = tree.every_named("x", inner);

    let xy = tree.pred_named("Edge", &["x", "y"]);
    let not_edge = tree.not(xy);
    let bx = tree.pred_named("Black", &["x"]);
    let not_bx = tree.not(bx);
    let by = tree.pred_named("Black", &["y"]);
    let forth = tree.or(not_bx, by);
    let bx = tree.pred_named("Black", &["x"]);
    let by = tree.pred_named("Black", &["y"]);
    let not_by = tree.not(by);
    let back = tree.or(bx, not_by);
    let same = tree.and(forth, back);
    let differ = tree.not(same);
    let coloured = tree.or(not_edge, differ);
    let inner = tree.every_named("y", coloured);
    let third = tree.every_named("x", inner);

    let both = tree.and(first, second);
    let root = tree.and(both, third);
    tree.set_output(root);

    let prop = first_order_to_propositional(&tree, &[domain(&tree, &["x", "y"], 2)]).unwrap();
    assert_eq!(prop.num_named(), 6);
    let mut all = enumerate(&prop);
    let mut models: Vec<Vec<bool>> = Vec::new();
    while let Some(model) = all.next() {
        models.push(model);
    }
    // no edge: any colouring; the two edges: the two points differ
    assert_eq!(models.len(), 4 + 2);
    for model in &models {
        assert!(prop.eval(model));
        assert!(!model[0] && !model[3]);
        assert_eq!(model[1], model[2]);
        if model[1] {
            assert_ne!(model[4], model[5]);
        }
    }
    assert_eq!(count_propositional(&prop), models.len());
}

#[test]
fn first_order_nnf_flips_the_quantifiers() {
    // ¬∀x:∃y:(¬(A(x)∧¬B(y))∨Edge(x, y))
    let mut tree: FirstOrderTree = Tree::new();
    let a = tree.pred_named("A", &["x"]);
    let b = tree.pred_named("B", &["y"]);
    let not_b = tree.not(b);
    let both = tree.and(a, not_b);
    let left = tree.not(both);
    let edge = tree.pred_named("Edge", &["x", "y"]);
    let either = tree.or(left, edge);
    let some = tree.exist_named("y", either);
    let every = tree.every_named("x", some);
    let root = tree.not(every);
    tree.set_output(root);
    assert_eq!(tree.to_string(), "¬∀x:∃y:(¬(A(x)∧¬B(y))∨Edge(x, y))");
    let nnf = to_nnf(&tree);
    assert_eq!(nnf.to_string(), "∃x:∀y:((A(x)∧¬B(y))∧¬Edge(x, y))");
    assert_eq!(nnf.num_named(), tree.num_named());
    let again = to_nnf(&nnf);
    assert_eq!(again.to_string(), nnf.to_string());
    assert_eq!(again.len(), nnf.len());
    // the normal form has the models of the formula
    let d = [domain(&tree, &["x", "y"], 2)];
    let plain = first_order_to_propositional(&tree, &d).unwrap();
    let normal = first_order_to_propositional(&nnf, &d).unwrap();
    assert_eq!(plain.num_named(), normal.num_named());
    for m in 0..(1usize << plain.num_named()) {
        let model: Vec<bool> = (0..plain.num_named()).map(|k| m >> k & 1 == 1).collect();
        assert_eq!(plain.eval(&model), normal.eval(&model));
    }
}

#[test]
fn first_order_trees_are_checked_before_use() {
    let tree = symmetric_without_loops();
    assert!(tree.check());
    assert!(tree.links_hold());
    let mut broken: FirstOrderTree = Tree::new();
    assert!(!broken.check());
    let p = broken.pred_named("P", &["x"]);
    let wrong = broken.not(p);
    let id = broken.add_named(&"Q".to_string());
    let head = broken.attach_pair(
        FOLogic::Predicate { id },
        wrong,
        Addr::none(),
    );
    broken.set_output(head);
    assert!(!broken.check());
    broken.set_output(wrong);
    assert!(broken.check());
}

/// The truth of the formula at `at` where the atom of predicate `p` at the
/// values `v` is `model(p, v)`: computed from the formula itself.
fn holds(
    tree: &FirstOrderTree,
    at: Addr,
    env: &mut Vec<(Addr, usize)>,
    domains: &[Integer],
    model: &dyn Fn(Addr, &[usize]) -> bool,
) -> bool {
    let cell = tree.get(at);
    let inputs = cell.node.operands();
    match cell.value {
        FOLogic::Predicate { id } => {
            let mut values = Vec::new();
            let mut next = inputs[0];
            while next.is_addr() {
                let arg = tree.get(next);
                if let FOLogic::Predicate { id: var } = arg.value {
                    let bound = env.iter().rev().find(|(name, _)| *name == var).unwrap();
                    values.push(bound.1);
                }
                next = arg.node.operands()[0];
            }
            model(id, &values)
        }
        FOLogic::Not => !holds(tree, inputs[0], env, domains, model),
        FOLogic::And => {
            holds(tree, inputs[0], env, domains, model)
                && holds(tree, inputs[1], env, domains, model)
        }
        FOLogic::Or => {
            holds(tree, inputs[0], env, domains, model)
                || holds(tree, inputs[1], env, domains, model)
        }
        FOLogic::Universal { id } | FOLogic::Existential { id } => {
            let card = domains.iter().find(|d| d.contains(id)).unwrap().card;
            let all = matches!(cell.value, FOLogic::Universal { .. });
            let mut result = all;
            for v in 0..card {
                env.push((id, v));
                let here = holds(tree, inputs[0], env, domains, model);
                env.pop();
                result = if all { result && here } else { result || here };
            }
            result
        }
    }
}

#[test]
fn the_grounded_formula_is_true_where_the_sentence_holds() {
    // ∀x:(∃y:(R(x, y)∧¬S(y))∨T())
    let mut tree: FirstOrderTree = Tree::new();
    let r = tree.pred_named("R", &["x", "y"]);
    let s = tree.pred_named("S", &["y"]);
    let not_s = tree.not(s);
    let both = tree.and(r, not_s);
    let some = tree.exist_named("y", both);
    let t = tree.pred_named("T", &[]);
    let either = tree.or(some, t);
    let root = tree.every_named("x", either);
    tree.set_output(root);
    let domains = [domain(&tree, &["x"], 2), domain(&tree, &["y"], 3)];
    let prop = first_order_to_propositional(&tree, &domains).unwrap();
    // R: 6 atoms, S: 3 atoms, T: 1 atom
    assert_eq!(prop.num_named(), 6 + 3 + 1);
    let r_id = tree.get_id(&"R".to_string());
    let s_id = tree.get_id(&"S".to_string());
    for m in 0..(1usize << 10) {
        let assignment: Vec<bool> = (0..10).map(|k| m >> k & 1 == 1).collect();
        let model = |p: Addr, v: &[usize]| {
            if p == r_id {
                assignment[v[0] * 3 + v[1]]
            } else if p == s_id {
                assignment[6 + v[0]]
            } else {
                assignment[9]
            }
        };
        let direct = holds(&tree, tree.output_addr(), &mut Vec::new(), &domains, &model);
        assert_eq!(prop.eval(&assignment), direct);
    }
}

#[test]
fn too_many_atoms_are_refused() {
    let mut tree: FirstOrderTree = Tree::new();
    let p = tree.pred_named("P", &["x", "y"]);
    let inner = tree.every_named("y", p);
    let root = tree.every_named("x", inner);
    tree.set_output(root);
    let d = [domain(&tree, &["x", "y"], usize::MAX / 2)];
    assert_eq!(
        first_order_to_propositional(&tree, &d).err(),
        Some("Too many atoms")
    );
}

#[test]
fn grounding_gives_every_tuple_an_entry_of_its_own() {
    let mut tree: FirstOrderTree = Tree::new();
    let r = tree.pred_named("R", &["x"]);
    let s = tree.pred_named("S", &["x", "y"]);
    let both = tree.and(r, s);
    let inner = tree.exist_named("y", both);
    let root = tree.exist_named("x", inner);
    tree.set_output(root);
    let domains = [domain(&tree, &["x"], 2), domain(&tree, &["y"], 3)];
    let mut target: PropositionalTree = Tree::new();
    target.add_named(&"before".to_string());
    target.add_anon();
    let list = Grounded::ground(&tree, &mut target, &domains).unwrap();
    assert_eq!(list.len(), 2);
    assert_eq!(list[0].grounded.len(), 2);
    assert_eq!(list[1].grounded.len(), 2 * 3);
    assert_eq!(target.num_named(), 2 + 2 + 2 * 3);
    let mut atoms: Vec<Addr> = list.iter().flat_map(|g| g.grounded.iter().copied()).collect();
    assert_eq!(atoms.len(), 8);
    atoms.sort();
    atoms.dedup();
    assert_eq!(atoms.len(), 8);
    assert!(atoms.iter().all(|a| a.addr() >= 2 && a.addr() < 10));
}
