use probabilistic_circuits::logic::propositional::{PLogic, PMut, PropositionalTree};
use probabilistic_circuits::tree::recycle::Recycle;
use probabilistic_circuits::tree::{Addr, LinkingNode, Tree};

fn links_hold(tree: &PropositionalTree) -> bool {
    (0..tree.len()).all(|p| {
        tree.get(Addr::new(p)).node.operands().iter().all(|q| {
            q.is_none() || (q.addr() < tree.len() && tree.get(*q).node.parent() == Addr::new(p))
        })
    })
}

/// ¬¬A ∧ B
fn double_negation() -> PropositionalTree {
    let mut tree: PropositionalTree = Tree::new();
    let a = tree.var_named("A");
    let once = tree.not(a);
    let twice = tree.not(once);
    let b = tree.var_named("B");
    let root = tree.and(twice, b);
    tree.set_output(root);
    tree
}

#[test]
fn a_cut_subtree_is_replaced_by_a_survivor() {
    let mut tree = double_negation();
    assert_eq!(tree.to_string(), "(¬¬A∧B)");
    let kept;
    {
        let mut recycle = Recycle::new(&mut tree);
        assert!(recycle.root().is_none());
        let target = recycle.cut(Addr::new(2), &[Addr::new(0)]).unwrap();
        assert_eq!(target, Addr::new(4));
        assert_eq!(recycle.root(), Addr::new(4));
        kept = recycle.finish(Addr::new(0));
    }
    assert_eq!(kept, Addr::new(0));
    assert_eq!(tree.len(), 3);
    assert_eq!(tree.to_string(), "(A∧B)");
    assert!(links_hold(&tree));
    assert_eq!(tree.output_addr(), Addr::new(1));
    assert!(tree.get(tree.output_addr()).node.parent().is_none());
}

#[test]
fn the_walk_gives_the_nodes_out_from_the_leaves_up() {
    let mut tree = double_negation();
    let mut recycle = Recycle::new(&mut tree);
    assert_eq!(recycle.next(), None);
    recycle.cut(Addr::new(4), &[]).unwrap();
    assert!(recycle.root().is_none());
    assert_eq!(recycle.next(), Some(Addr::new(0)));
    assert_eq!(recycle.next(), Some(Addr::new(1)));
    assert_eq!(recycle.next(), Some(Addr::new(2)));
    assert_eq!(recycle.next(), Some(Addr::new(3)));
    assert_eq!(recycle.next(), Some(Addr::new(4)));
    assert_eq!(recycle.next(), None);
    drop(recycle);
    for i in 0..5 {
        let cell = tree.get(Addr::new(i));
        assert!(cell.node.parent().is_none());
        assert_eq!(cell.node.operands(), &[Addr::none(), Addr::none()]);
    }
}

#[test]
fn nodes_of_the_cut_subtree_are_used_again() {
    // ¬(A ∧ B) becomes (¬A ∨ ¬B)
    let mut tree: PropositionalTree = Tree::new();
    let a = tree.var_named("A");
    let b = tree.var_named("B");
    let both = tree.and(a, b);
    let root = tree.not(both);
    tree.set_output(root);
    assert_eq!(tree.to_string(), "¬(A∧B)");
    {
        let mut recycle = Recycle::new(&mut tree);
        let target = recycle.cut(root, &[a, b]).unwrap();
        assert!(target.is_none());
        let not_a = recycle.attach(PLogic::Not, &[a]);
        assert_eq!(not_a, both);
        let not_b = recycle.attach(PLogic::Not, &[b]);
        assert_eq!(not_b, root);
        let either = recycle.attach(PLogic::Or, &[not_a, not_b]);
        assert_eq!(either, Addr::new(4));
        assert_eq!(recycle.finish(either), either);
    }
    assert_eq!(tree.len(), 5);
    assert_eq!(tree.output_addr(), Addr::new(4));
    assert_eq!(tree.to_string(), "(¬A∨¬B)");
    assert!(links_hold(&tree));
}

#[test]
fn what_is_left_over_is_removed() {
    // (A ∧ (B ∨ C)) with the disjunction replaced by a new variable D
    let mut tree: PropositionalTree = Tree::new();
    let a = tree.var_named("A");
    let b = tree.var_named("B");
    let c = tree.var_named("C");
    let either = tree.or(b, c);
    let root = tree.and(a, either);
    tree.set_output(root);
    let d = probabilistic_circuits::tree::Mapping::add_named(&mut tree, &"D".to_string());
    {
        let mut recycle = Recycle::new(&mut tree);
        assert_eq!(recycle.cut(either, &[]), Ok(root));
        let leaf = recycle.push(PLogic::Variable { id: d }, &[]);
        assert_eq!(leaf, b);
        let end = recycle.finish(leaf);
        // the last node, the root, was moved into the place of a removed one
        assert_eq!(end, leaf);
        assert_eq!(recycle.root(), Addr::new(2));
    }
    assert_eq!(tree.len(), 3);
    assert_eq!(tree.to_string(), "(A∧D)");
    assert!(links_hold(&tree));
}

#[test]
fn a_cut_that_cannot_be_made_changes_nothing() {
    let mut tree = double_negation();
    let before: Vec<String> = (0..tree.len())
        .map(|i| format!("{:?}", tree.get(Addr::new(i))))
        .collect();
    {
        let mut recycle = Recycle::new(&mut tree);
        assert_eq!(
            recycle.cut(Addr::new(9), &[]),
            Err("This node doesn't exist")
        );
        assert_eq!(
            recycle.cut(Addr::new(2), &[Addr::new(9)]),
            Err("This node doesn't exist")
        );
        // the root has no parent
        assert_eq!(
            recycle.cut(Addr::new(2), &[Addr::new(4)]),
            Err("input not found")
        );
        assert_eq!(recycle.remove(Addr::new(9)), Err("This node doesn't exist"));
        assert_eq!(recycle.next(), None);
    }
    // a parent that does not hold the node
    tree.replace_parent(Addr::new(3), Addr::new(1));
    let mut changed = before.clone();
    changed[3] = format!("{:?}", tree.get(Addr::new(3)));
    {
        let mut recycle = Recycle::new(&mut tree);
        assert_eq!(recycle.cut(Addr::new(3), &[]), Err("input not found"));
    }
    let after: Vec<String> = (0..tree.len())
        .map(|i| format!("{:?}", tree.get(Addr::new(i))))
        .collect();
    assert_eq!(changed, after);
}
