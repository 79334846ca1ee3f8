use probabilistic_circuits::tree::{
    Addr, IndexedMutRef, IndexedRef, LinkingNode, Mapping, Node, NodeAllocator, NodeValue, Tree,
};

#[test]
fn addr() {
    assert_eq!(Addr::none(), Addr { addr: usize::MAX });

    assert_eq!(Addr::none(), Default::default());

    assert_eq!(Addr { addr: 2 }, Addr::from(Some(2)));
    assert_eq!(Addr::none(), Addr::from(None as Option<usize>));
    assert_eq!(Some(3), Addr { addr: 3 }.into());

    assert_eq!(Addr { addr: 6 }, Addr::new(6));
    assert_eq!(Addr { addr: 4 }.addr(), 4);

    assert_eq!(Addr { addr: 6 }.is_addr(), true);
    assert_eq!(Addr { addr: usize::MAX }.is_addr(), false);
    assert_eq!(Addr::none().is_addr(), false);

    assert_eq!(Addr { addr: 0 }.is_none(), false);
    assert_eq!(Addr { addr: usize::MAX }.is_none(), true);
    assert_eq!(Addr::none().is_none(), true);
}

fn indexed() -> Tree<i32, 2> {
    let mut array: Tree<i32, 2> = Tree::new();
    array.push(1, &[]);
    array.push(4, &[]);
    array.push(3, &[]);
    array
}

#[test]
fn indexed_ref() {
    let array = indexed();
    assert_eq!(
        IndexedRef {
            array: &array,
            idx: Addr::new(0),
        }
        .as_ref()
        .value,
        1
    );
    assert_eq!(
        IndexedRef {
            array: &array,
            idx: Addr::new(2),
        }
        .as_ref()
        .value,
        3
    );
    assert_eq!(
        IndexedRef {
            array: &array,
            idx: Addr::new(1),
        }
        .as_ref()
        .value,
        4
    );
}

#[test]
fn indexed_mutref() {
    let mut array = indexed();
    IndexedMutRef {
        array: &mut array,
        idx: Addr::new(0),
    }
    .set_value(6);

    IndexedMutRef {
        array: &mut array,
        idx: Addr::new(1),
    }
    .set_value(2);

    IndexedMutRef {
        array: &mut array,
        idx: Addr::new(2),
    }
    .set_value(4);

    let values: Vec<i32> = (0..3).map(|i| array.get(Addr::new(i)).value).collect();
    assert_eq!(values, [6, 2, 4]);

    assert_eq!(
        IndexedMutRef {
            array: &mut array,
            idx: Addr::new(0),
        }
        .as_ref()
        .value,
        6
    );
    assert_eq!(
        IndexedMutRef {
            array: &mut array,
            idx: Addr::new(1),
        }
        .as_ref()
        .value,
        2
    );
    assert_eq!(
        IndexedMutRef {
            array: &mut array,
            idx: Addr::new(2),
        }
        .as_ref()
        .value,
        4
    );
    let cursor = IndexedMutRef {
        array: &mut array,
        idx: Addr::new(1),
    };
    assert_eq!(cursor.get_ref().idx, Addr::new(1));
    assert_eq!(cursor.get_ref().as_ref().value, 2);
}

fn nodes_of<T: Copy>(tree: &Tree<T, 2>) -> Vec<NodeValue<Node<2>, T>> {
    (0..tree.len()).map(|i| *tree.get(Addr::new(i))).collect()
}

fn leaf(tree: &mut Tree<i32, 2>, value: i32) -> Addr {
    tree.push(value, &[Addr::none(), Addr::none()])
}

fn over(tree: &mut Tree<i32, 2>, value: i32, child: Addr) -> Addr {
    let idx = tree.push(value, &[child]);
    tree.replace_parent(child, idx);
    idx
}

#[test]
fn tree_build() {
    let mut tree: Tree<i32, 2> = Tree::new();
    let root = leaf(&mut tree, 3);
    tree.set_output(root);
    assert_eq!(
        nodes_of(&tree),
        vec![
            (NodeValue {
                node: Node {
                    parent: Addr::none(),
                    childs: [Addr::none(); 2]
                },
                value: 3
            })
        ]
    );
    assert_eq!(tree.output_addr(), Addr::new(0));
    assert_eq!(tree.num_named(), 0);

    let mut tree: Tree<i32, 2> = Tree::new();
    let inner = leaf(&mut tree, -5);
    let root = over(&mut tree, 2, inner);
    tree.set_output(root);
    assert_eq!(
        nodes_of(&tree),
        vec![
            (NodeValue {
                node: Node {
                    parent: Addr::new(1),
                    childs: [Addr::none(); 2]
                },
                value: -5
            }),
            (NodeValue {
                node: Node {
                    parent: Addr::none(),
                    childs: [Addr::new(0), Addr::none()]
                },
                value: 2
            })
        ]
    );
    assert_eq!(tree.output_addr(), Addr::new(1));
    assert_eq!(tree.num_named(), 0);
}

fn compiler_abs_even_tree(origin: &Tree<i32, 2>, at: Addr, target: &mut Tree<u32, 2>) -> Addr {
    let cell = *origin.get(at);
    let child_id = cell.node.operands()[0];
    let value = cell.value.unsigned_abs() * 2;
    if child_id.is_addr() {
        let child = compiler_abs_even_tree(origin, child_id, target);
        target.attach(value, &[child])
    } else {
        target.push(value, &[Addr::none(), Addr::none()])
    }
}

#[test]
fn tree_compile() {
    let mut origin: Tree<i32, 2> = Tree::new();
    let inner = leaf(&mut origin, -5);
    let root = over(&mut origin, 2, inner);
    origin.set_output(root);

    let mut target: Tree<u32, 2> = Tree::new();
    let root = compiler_abs_even_tree(&origin, origin.output_addr(), &mut target);
    target.set_output(root);

    assert_eq!(
        nodes_of(&target),
        vec![
            (NodeValue {
                node: Node {
                    parent: Addr::new(1),
                    childs: [Addr::none(); 2],
                },
                value: 10,
            }),
            (NodeValue {
                node: Node {
                    parent: Addr::none(),
                    childs: [Addr::new(0), Addr::none()],
                },
                value: 4,
            }),
        ]
    );
    assert_eq!(target.output_addr(), Addr::new(1));
}

#[test]
fn mapping() {
    let mut tree: Tree<i32, 2> = Default::default();

    let anon1 = tree.add_anon();
    let a = tree.add_named(&"A".to_string());
    let anon2 = tree.add_anon();
    let b = tree.add_named(&"B".to_string());
    let c = tree.add_named(&"C".to_string());
    let anon3 = tree.add_anon();

    assert_eq!(6, tree.num_named());

    assert_eq!(a, tree.get_id(&"A".to_string()));
    assert_eq!(b, tree.get_id(&"B".to_string()));
    assert_eq!(c, tree.get_id(&"C".to_string()));

    assert_eq!(None, tree.get_named(anon1));
    assert_eq!(Some(&"A".to_string()), tree.get_named(a));
    assert_eq!(None, tree.get_named(anon2));
    assert_eq!(Some(&"B".to_string()), tree.get_named(b));
    assert_eq!(Some(&"C".to_string()), tree.get_named(c));
    assert_eq!(None, tree.get_named(anon3));
}

#[test]
fn mapping_is_idempotent_and_reports_misses() {
    let mut tree: Tree<i32, 2> = Tree::new();
    let a = tree.add_named(&"A".to_string());
    let again = tree.add_named(&"A".to_string());
    assert_eq!(a, again);
    assert_eq!(tree.num_named(), 1);
    assert!(tree.get_id(&"B".to_string()).is_none());
    assert_eq!(tree.get_named(Addr::new(7)), None);
    let anon = tree.add_anon();
    assert_eq!(tree.fmt_named(a), "A");
    assert_eq!(tree.fmt_named(anon), "x2");
    assert_eq!(tree.fmt_named(Addr::new(41)), "x42");
}

#[test]
fn node_operations() {
    let mut node: Node<2> = Node::new(&[Addr::new(4)]);
    assert_eq!(node.parent(), Addr::none());
    assert_eq!(node.operands(), &[Addr::new(4), Addr::none()]);
    node.replace_parent(Addr::new(9));
    assert_eq!(node.parent(), Addr::new(9));
    assert_eq!(node.replace_operand(Addr::new(4), Addr::new(5)), Ok(()));
    assert_eq!(
        node.replace_operand(Addr::new(4), Addr::new(6)),
        Err("input not found")
    );
    node.replace_operand_at(1, Addr::new(7));
    assert_eq!(node.operands(), &[Addr::new(5), Addr::new(7)]);
    assert_eq!(node.pop_operand(), Addr::new(5));
    assert_eq!(node.operands(), &[Addr::none(), Addr::new(7)]);
    assert_eq!(node.pop_operand(), Addr::new(7));
    assert_eq!(node.pop_operand(), Addr::none());
    node.replace_operands(&[Addr::new(1), Addr::new(2)]);
    assert_eq!(node.operands(), &[Addr::new(1), Addr::new(2)]);
    node.replace_operands(&[Addr::new(3)]);
    assert_eq!(node.operands(), &[Addr::new(3), Addr::none()]);
    node.remove_operands();
    assert_eq!(node.operands(), &[Addr::none(), Addr::none()]);
    node.unlink_parent();
    assert_eq!(node.parent(), Addr::none());
    let fresh: Node<2> = Default::default();
    assert_eq!(fresh, node);
}

fn links_hold(tree: &Tree<i32, 2>) -> bool {
    (0..tree.len()).all(|p| {
        tree.get(Addr::new(p)).node.operands().iter().all(|q| {
            q.is_none() || (q.addr() < tree.len() && tree.get(*q).node.parent() == Addr::new(p))
        })
    })
}

fn walk(tree: &Tree<i32, 2>, at: Addr, out: &mut Vec<i32>) {
    if at.is_none() {
        return;
    }
    let cell = tree.get(at);
    out.push(cell.value);
    walk(tree, cell.node.operands()[0], out);
    walk(tree, cell.node.operands()[1], out);
}

#[test]
fn remove_swaps_the_last_node_in() {
    // 0: leaf 10, 1: leaf 20 (stray), 2: leaf 30, 3: node 40 over 0 and 2
    let mut tree: Tree<i32, 2> = Tree::new();
    let a = tree.attach(10, &[]);
    let stray = tree.attach(20, &[]);
    let b = tree.attach(30, &[]);
    let root = tree.attach(40, &[a, b]);
    tree.set_output(root);
    assert!(links_hold(&tree));
    let mut before = Vec::new();
    walk(&tree, tree.output_addr(), &mut before);

    assert_eq!(tree.remove(stray), Ok(Addr::new(3)));
    assert_eq!(tree.len(), 3);
    assert_eq!(tree.output_addr(), Addr::new(1));
    assert!(links_hold(&tree));
    assert_eq!(tree.get(a).node.parent(), Addr::new(1));
    assert_eq!(tree.get(b).node.parent(), Addr::new(1));
    let mut after = Vec::new();
    walk(&tree, tree.output_addr(), &mut after);
    assert_eq!(before, after);
    assert_eq!(after, vec![40, 10, 30]);
}

#[test]
fn remove_fixes_the_slot_of_the_parent() {
    // 0: stray, 1: root over 2 and 3, 2: leaf, 3: leaf; the last node is a
    // child
    let mut tree: Tree<i32, 2> = Tree::new();
    let stray = tree.push(0, &[]);
    let root = tree.push(1, &[Addr::new(2), Addr::new(3)]);
    let left = tree.push(2, &[]);
    let right = tree.push(3, &[]);
    tree.replace_parent(left, root);
    tree.replace_parent(right, root);
    tree.set_output(root);
    assert!(links_hold(&tree));

    assert_eq!(tree.remove(stray), Ok(Addr::new(3)));
    assert_eq!(tree.get(root).node.operands(), &[Addr::new(2), Addr::new(0)]);
    assert_eq!(tree.get(Addr::new(0)).value, 3);
    assert_eq!(tree.get(Addr::new(0)).node.parent(), root);
    assert_eq!(tree.output_addr(), root);
    assert!(links_hold(&tree));
    let mut after = Vec::new();
    walk(&tree, tree.output_addr(), &mut after);
    assert_eq!(after, vec![1, 2, 3]);
}

#[test]
fn remove_of_the_last_node_and_past_the_end() {
    let mut tree: Tree<i32, 2> = Tree::new();
    assert_eq!(tree.remove(Addr::new(0)), Err("This node doesn't exist"));
    let a = tree.push(1, &[]);
    let b = tree.push(2, &[]);
    tree.set_output(a);
    assert_eq!(tree.remove(Addr::new(2)), Err("This node doesn't exist"));
    assert_eq!(tree.remove(Addr::none()), Err("This node doesn't exist"));
    assert_eq!(tree.len(), 2);
    assert_eq!(tree.remove(b), Ok(Addr::new(1)));
    assert_eq!(tree.len(), 1);
    assert_eq!(tree.output_addr(), a);
    assert_eq!(tree.remove(a), Ok(Addr::new(0)));
    assert_eq!(tree.len(), 0);
    assert_eq!(tree.output_addr(), a);
}

#[test]
fn remove_leaves_an_output_that_is_not_the_last_node() {
    let mut tree: Tree<i32, 2> = Tree::new();
    let a = tree.push(1, &[]);
    let b = tree.push(2, &[]);
    let c = tree.push(3, &[]);
    tree.set_output(a);
    assert_eq!(tree.remove(a), Ok(c));
    assert_eq!(tree.output_addr(), a);
    assert_eq!(tree[a].value, 3);
    tree.set_output(b);
    assert_eq!(tree.remove(a), Ok(b));
    assert_eq!(tree.output_addr(), a);
    assert_eq!(tree[a].value, 2);
}

#[test]
fn copy_builds_the_subtree_again() {
    let mut tree: Tree<i32, 2> = Tree::new();
    let a = tree.attach(1, &[]);
    let b = tree.attach(2, &[]);
    let top = tree.attach(3, &[a, b]);
    let copy = tree.copy(top);
    assert_eq!(copy, Addr::new(5));
    let mut first = Vec::new();
    walk(&tree, top, &mut first);
    let mut second = Vec::new();
    walk(&tree, copy, &mut second);
    assert_eq!(first, second);
    assert!(links_hold(&tree));
    assert!(tree.get(copy).node.parent().is_none());
}

#[test]
fn chain_is_left_associated() {
    let mut tree: Tree<i32, 2> = Tree::new();
    assert!(tree.chain(9, &[]).is_none());
    let a = tree.attach(1, &[]);
    assert_eq!(tree.chain(9, &[a]), a);
    let b = tree.attach(2, &[]);
    let c = tree.attach(3, &[]);
    let top = tree.chain(9, &[a, b, c]);
    let mut seen = Vec::new();
    walk(&tree, top, &mut seen);
    assert_eq!(seen, vec![9, 9, 1, 2, 3]);
    assert!(links_hold(&tree));
}

#[test]
fn copy_named_adds_the_entries_in_order() {
    let mut source: Tree<i32, 2> = Tree::new();
    source.add_named(&"A".to_string());
    source.add_anon();
    source.add_named(&"B".to_string());
    let mut target: Tree<u8, 2> = Tree::new();
    target.add_named(&"B".to_string());
    target.copy_named(&source);
    assert_eq!(target.num_named(), 3);
    assert_eq!(target.get_id(&"B".to_string()), Addr::new(0));
    assert_eq!(target.get_id(&"A".to_string()), Addr::new(1));
    assert_eq!(target.get_named(Addr::new(2)), None);
}
