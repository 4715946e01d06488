use synless::forest::{Forest, Node};
use synless::location::{Location, LocationInner};

fn print(f: &Forest, n: Node) -> String {
    let mut out = format!("({}", n.data(f));
    if n.is_leaf(f) {
        out.push(' ');
        out.push_str(n.leaf(f));
    } else {
        for c in n.children(f).clone() {
            out.push(' ');
            out.push_str(&print(f, Node(c)));
        }
    }
    out.push(')');
    out
}

fn leaf(f: &mut Forest, data: &str) -> Node {
    f.new_leaf(data.to_string(), String::new())
}

#[test]
fn backspace_in_a_fixed_slot_leaves_a_hole() {
    let mut f = Forest::new();
    let pair = f.new_fixed_branch("pair".to_string(), 2);
    let a = leaf(&mut f, "a");
    let b = leaf(&mut f, "b");
    let mut here = Location::before_children(pair, &f).unwrap();
    assert!(matches!(here.insert(a, &mut f), Ok(Some(_))));
    assert!(matches!(here.insert(b, &mut f), Ok(Some(_))));
    assert_eq!(print(&f, pair), "(pair (a ) (b ))");
    let mut at_a = Location::after(a, &f);
    let removed = at_a.delete_neighbor(true, &mut f).unwrap();
    assert_eq!(removed.0, a.0);
    assert!(a.parent(&f).is_none());
    assert_eq!(print(&f, pair), "(pair (?) (b ))");
    assert_eq!(pair.children(&f).len(), 2);
}

#[test]
fn insert_into_a_fixed_slot_swaps_out_the_right_node() {
    let mut f = Forest::new();
    let pair = f.new_fixed_branch("pair".to_string(), 2);
    let x = leaf(&mut f, "x");
    let hole = Node(pair.children(&f)[0]);
    let mut here = Location::before_children(pair, &f).unwrap();
    match here.insert(x, &mut f) {
        Ok(Some(out)) => assert_eq!(out.0, hole.0),
        _ => panic!("the first slot takes the new node"),
    }
    assert!(matches!(here.0, LocationInner::AfterNode(n) if n == x.0));
    assert_eq!(print(&f, pair), "(pair (x ) (?))");
    assert!(hole.parent(&f).is_none());
}

#[test]
fn insert_into_a_list_before_after_and_below() {
    let mut f = Forest::new();
    let list = f.new_branch("list".to_string());
    let mut here = Location::before_children(list, &f).unwrap();
    assert!(matches!(here.0, LocationInner::BelowNode(_)));
    let t = leaf(&mut f, "true");
    assert!(matches!(here.insert(t, &mut f), Ok(None)));
    let n = leaf(&mut f, "null");
    assert!(matches!(here.insert(n, &mut f), Ok(None)));
    assert_eq!(print(&f, list), "(list (true ) (null ))");
    let mut before_true = Location::before(t, &f);
    let fl = leaf(&mut f, "false");
    assert!(matches!(before_true.insert(fl, &mut f), Ok(None)));
    assert_eq!(print(&f, list), "(list (false ) (true ) (null ))");
    assert!(matches!(before_true.0, LocationInner::AfterNode(n) if n == fl.0));
}

#[test]
fn backspace_in_a_list_detaches_the_node() {
    let mut f = Forest::new();
    let list = f.new_branch("list".to_string());
    let a = leaf(&mut f, "a");
    let b = leaf(&mut f, "b");
    let mut here = Location::before_children(list, &f).unwrap();
    assert!(here.insert(a, &mut f).is_ok());
    assert!(here.insert(b, &mut f).is_ok());
    let mut at_a = Location::after(a, &f);
    assert_eq!(at_a.delete_neighbor(false, &mut f).map(|n| n.0), Some(b.0));
    assert_eq!(print(&f, list), "(list (a ))");
    let mut start = Location::before(a, &f);
    assert!(start.delete_neighbor(true, &mut f).is_none());
}

#[test]
fn inserting_a_node_of_the_same_tree_fails() {
    let mut f = Forest::new();
    let list = f.new_branch("list".to_string());
    let a = leaf(&mut f, "a");
    let mut here = Location::before_children(list, &f).unwrap();
    assert!(here.insert(a, &mut f).is_ok());
    let mut again = Location::after(a, &f);
    assert!(again.insert(list, &mut f).is_err());
    assert!(matches!(again.0, LocationInner::AfterNode(n) if n == a.0));
    assert_eq!(print(&f, list), "(list (a ))");
}

#[test]
fn text_has_no_neighbors_to_insert_at() {
    let mut f = Forest::new();
    let list = f.new_branch("list".to_string());
    let s = f.new_leaf("string".to_string(), "ab".to_string());
    let mut here = Location::before_children(list, &f).unwrap();
    assert!(here.insert(s, &mut f).is_ok());
    let mut in_text = here.enter_text(&f).unwrap();
    let other = leaf(&mut f, "x");
    assert!(in_text.insert(other, &mut f).is_err());
}

#[test]
fn insert_rejects_a_node_of_the_wrong_sort() {
    let mut f = Forest::new();
    let list = f.new_branch("list".to_string());
    list.set_sorts(&mut f, "value".to_string(), vec!["value".to_string()]);
    let good = leaf(&mut f, "true");
    good.set_sorts(&mut f, "value".to_string(), vec![]);
    let bad = leaf(&mut f, "key");
    bad.set_sorts(&mut f, "key".to_string(), vec![]);
    let mut here = Location::before_children(list, &f).unwrap();
    assert!(here.insert(bad, &mut f).is_err());
    assert!(matches!(here.0, LocationInner::BelowNode(n) if n == list.0));
    assert!(here.insert(good, &mut f).is_ok());
    assert_eq!(print(&f, list), "(list (true ))");
}

#[test]
fn fixed_slots_check_their_own_sort_and_any_accepts_all() {
    let mut f = Forest::new();
    let pair = f.new_fixed_branch("pair".to_string(), 2);
    pair.set_sorts(&mut f, "value".to_string(), vec!["key".to_string(), "Any".to_string()]);
    let v = leaf(&mut f, "v");
    v.set_sorts(&mut f, "value".to_string(), vec![]);
    let mut first = Location::before_children(pair, &f).unwrap();
    assert!(first.insert(v, &mut f).is_err());
    let mut second = Location::after(Node(pair.children(&f)[0]), &f);
    assert!(matches!(second.insert(v, &mut f), Ok(Some(_))));
    assert_eq!(print(&f, pair), "(pair (?) (v ))");
    assert_eq!(v.sort(&f), "value");
}
