use synless::forest::{Forest, Node};

/// Check the parent links and sibling indices of the trees under `roots`,
/// and print them as `(data leaf)` or `(data child ...)`.
fn verify_and_print(f: &Forest, roots: &[Node]) -> String {
    let expected: Vec<_> = roots.iter().map(|r| r.0).collect();
    let actual: Vec<_> = f.roots().iter().map(|r| r.0).collect();
    assert_eq!(expected, actual);
    let mut out = String::new();
    let mut count = 0;
    for root in roots {
        assert!(root.is_valid(f));
        assert!(root.parent(f).is_none());
        assert_eq!(root.root(f).0, root.0);
        verify_tree(f, *root, *root, &mut out, &mut count);
    }
    assert_eq!(count, f.iter_nodes().len());
    out
}

fn verify_tree(f: &Forest, node: Node, root: Node, out: &mut String, count: &mut usize) {
    *count += 1;
    assert!(node.is_valid(f));
    assert_eq!(node.root(f).0, root.0);
    out.push('(');
    out.push_str(node.data(f));
    if node.is_leaf(f) {
        out.push(' ');
        out.push_str(node.leaf(f));
    } else {
        let children = node.children(f).clone();
        for (i, child) in children.iter().enumerate() {
            let child = Node(*child);
            out.push(' ');
            assert_eq!(child.parent(f).map(|p| p.0), Some(node.0));
            assert_eq!(child.sibling_index(f), Some(i));
            verify_tree(f, child, root, out, count);
        }
    }
    out.push(')');
}

fn make_mirror(f: &mut Forest, height: u32, id: u32) -> Node {
    if height == 0 {
        f.new_leaf(id.to_string(), "a".to_string())
    } else {
        let parent = f.new_branch(id.to_string());
        for i in 0..height {
            let child = make_mirror(f, i, id + 2_u32.pow(i));
            assert!(parent.insert_child(f, i as usize, child));
        }
        parent
    }
}

#[test]
fn test_leaf() {
    let mut forest = Forest::new();
    let leaf = forest.new_leaf("data".to_string(), "leaf".to_string());
    assert_eq!(verify_and_print(&forest, &[leaf]), "(data leaf)");
}

#[test]
fn test_branch() {
    let mut f = Forest::new();
    let parent = f.new_branch("parent".to_string());
    let elder_sister = f.new_leaf("Sister".to_string(), "elder".to_string());
    let younger_sister = f.new_leaf("sister".to_string(), "younger".to_string());
    assert!(parent.insert_child(&mut f, 0, elder_sister));
    assert!(parent.insert_child(&mut f, 1, younger_sister));
    assert_eq!(verify_and_print(&f, &[parent]), "(parent (Sister elder) (sister younger))");
}

#[test]
fn test_mirror() {
    let mut f = Forest::new();
    let root = make_mirror(&mut f, 3, 0);
    assert_eq!(verify_and_print(&f, &[root]), "(0 (1 a) (2 (3 a)) (4 (5 a) (6 (7 a))))");
}

#[test]
fn test_mutation() {
    let mut f = Forest::new();
    let root = make_mirror(&mut f, 3, 0);
    *root.data_mut(&mut f) = "100".to_string();
    let second = Node(root.children(&f)[1]);
    let grandchild = Node(second.children(&f)[0]);
    *grandchild.leaf_mut(&mut f) = "b".to_string();
    let last_child = Node(root.children(&f)[2]);
    let c = Node(last_child.children(&f)[0]);
    *c.leaf_mut(&mut f) = "c".to_string();
    let six = Node(last_child.children(&f)[1]);
    let d = Node(six.children(&f)[0]);
    *d.leaf_mut(&mut f) = "d".to_string();
    assert_eq!(verify_and_print(&f, &[root]), "(100 (1 a) (2 (3 b)) (4 (5 c) (6 (7 d))))");
}

#[test]
fn test_modification() {
    let mut f = Forest::new();
    let kid = f.new_branch("kid".to_string());
    let mama = f.new_branch("mama".to_string());
    assert!(kid.insert_child(&mut f, 0, mama));
    let papa = f.new_branch("papa".to_string());
    assert!(kid.insert_child(&mut f, 1, papa));
    let gram = f.new_leaf("gram".to_string(), "99".to_string());
    assert!(mama.insert_child(&mut f, 0, gram));
    let gramp = f.new_leaf("gramp".to_string(), "100".to_string());
    assert!(mama.insert_child(&mut f, 0, gramp));
    let ogram = f.new_leaf("ogram".to_string(), "79".to_string());
    assert!(papa.insert_child(&mut f, 0, ogram));
    let ogramp = f.new_leaf("ogramp".to_string(), "80".to_string());
    assert!(papa.insert_child(&mut f, 0, ogramp));
    assert_eq!(
        verify_and_print(&f, &[kid]),
        "(kid (mama (gramp 100) (gram 99)) (papa (ogramp 80) (ogram 79)))"
    );

    mama.detach(&mut f);
    mama.detach(&mut f);
    assert_eq!(
        verify_and_print(&f, &[kid, mama]),
        "(kid (papa (ogramp 80) (ogram 79)))(mama (gramp 100) (gram 99))"
    );

    assert!(kid.insert_child(&mut f, 0, gramp));
    assert_eq!(
        verify_and_print(&f, &[kid, mama]),
        "(kid (gramp 100) (papa (ogramp 80) (ogram 79)))(mama (gram 99))"
    );

    assert!(kid.swap(&mut f, mama));
    assert!(gramp.swap(&mut f, gram));
    assert_eq!(
        verify_and_print(&f, &[mama, kid]),
        "(mama (gramp 100))(kid (gram 99) (papa (ogramp 80) (ogram 79)))"
    );

    papa.delete(&mut f);
    assert!(!papa.is_valid(&f));
    assert!(!ogramp.is_valid(&f));
    assert!(!ogram.is_valid(&f));
    assert_eq!(verify_and_print(&f, &[mama, kid]), "(mama (gramp 100))(kid (gram 99))");
}

#[test]
fn inserting_a_node_into_itself_is_refused() {
    let mut f = Forest::new();
    let tree = f.new_branch("0".to_string());
    assert!(!tree.insert_child(&mut f, 0, tree));
    assert_eq!(verify_and_print(&f, &[tree]), "(0)");
}

#[test]
fn deeper_cycle_is_refused_and_trees_stay_intact() {
    let mut f = Forest::new();
    let n1 = f.new_branch("1".to_string());
    let n2 = f.new_branch("2".to_string());
    let n3 = f.new_branch("3".to_string());
    let n4 = f.new_branch("4".to_string());
    assert!(n1.insert_child(&mut f, 0, n2));
    assert!(n2.insert_child(&mut f, 0, n3));
    assert!(n3.insert_child(&mut f, 0, n4));
    assert!(!n3.insert_child(&mut f, 0, n2));
    assert_eq!(verify_and_print(&f, &[n1]), "(1 (2 (3 (4))))");
}

#[test]
fn swapping_within_one_tree_is_refused() {
    let mut f = Forest::new();
    let p = f.new_branch("p".to_string());
    let a = f.new_leaf("a".to_string(), "x".to_string());
    let b = f.new_leaf("b".to_string(), "y".to_string());
    assert!(p.insert_child(&mut f, 0, a));
    assert!(p.insert_child(&mut f, 1, b));
    assert!(!a.swap(&mut f, b));
    assert!(!p.swap(&mut f, a));
    assert_eq!(verify_and_print(&f, &[p]), "(p (a x) (b y))");
}

#[test]
fn bad_insertions_change_nothing() {
    let mut f = Forest::new();
    let p = f.new_branch("p".to_string());
    let leaf = f.new_leaf("l".to_string(), "t".to_string());
    let other = f.new_leaf("o".to_string(), "u".to_string());
    assert!(!p.insert_child(&mut f, 1, leaf));
    assert!(!leaf.insert_child(&mut f, 0, other));
    assert_eq!(verify_and_print(&f, &[p, leaf, other]), "(p)(l t)(o u)");
}

#[test]
fn deleted_handles_are_invalid() {
    let mut f = Forest::new();
    let tree = f.new_branch("0".to_string());
    let child = f.new_leaf("1".to_string(), "a".to_string());
    assert!(tree.insert_child(&mut f, 0, child));
    tree.delete(&mut f);
    assert!(!tree.is_valid(&f));
    assert!(!child.is_valid(&f));
}

#[test]
fn moving_a_node_between_trees_keeps_it_whole() {
    let mut f = Forest::new();
    let x = make_mirror(&mut f, 2, 0);
    let y = f.new_branch("y".to_string());
    let moved = Node(x.children(&f)[1]);
    assert!(y.insert_child(&mut f, 0, moved));
    assert_eq!(moved.root(&f).0, y.0);
    assert_eq!(verify_and_print(&f, &[x, y]), "(0 (1 a))(y (2 (3 a)))");
}
