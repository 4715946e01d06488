use synless::forest::{Forest, Node};
use synless::location::{Location, LocationInner, Mode};

/// `(list (a x) (b y) (list2))` with the three children.
fn sample(f: &mut Forest) -> (Node, Node, Node, Node) {
    let list = f.new_branch("list".to_string());
    let a = f.new_leaf("a".to_string(), "x".to_string());
    let b = f.new_leaf("b".to_string(), "yz".to_string());
    let inner = f.new_branch("list2".to_string());
    assert!(list.insert_child(f, 0, a));
    assert!(list.insert_child(f, 1, b));
    assert!(list.insert_child(f, 2, inner));
    (list, a, b, inner)
}

fn after(l: Option<Location>) -> Option<u64> {
    match l.map(|l| l.0) {
        Some(LocationInner::AfterNode(n)) => Some(n.into_raw_parts().0 as u64),
        _ => None,
    }
}

fn slot(n: Node) -> Option<u64> {
    Some(n.0.into_raw_parts().0 as u64)
}

#[test]
fn before_is_normalized_to_after_the_left_sibling() {
    let mut f = Forest::new();
    let (_, a, b, _) = sample(&mut f);
    assert_eq!(after(Some(Location::before(b, &f))), slot(a));
    assert!(matches!(Location::before(a, &f).0, LocationInner::BeforeNode(n) if n == a.0));
}

#[test]
fn children_locations() {
    let mut f = Forest::new();
    let (list, a, _, inner) = sample(&mut f);
    assert!(matches!(Location::before_children(list, &f).unwrap().0, LocationInner::BeforeNode(n) if n == a.0));
    assert_eq!(after(Location::after_children(list, &f)), slot(inner));
    assert!(matches!(Location::before_children(inner, &f).unwrap().0, LocationInner::BelowNode(n) if n == inner.0));
    assert!(Location::before_children(a, &f).is_none());
}

#[test]
fn sibling_navigation() {
    let mut f = Forest::new();
    let (list, a, b, inner) = sample(&mut f);
    let at_a = Location::after(a, &f);
    assert_eq!(after(at_a.next(&f)), slot(b));
    assert_eq!(after(at_a.last(&f)), slot(inner));
    assert!(matches!(at_a.prev(&f).unwrap().0, LocationInner::BeforeNode(n) if n == a.0));
    assert!(matches!(Location::after(inner, &f).first(&f).unwrap().0, LocationInner::BeforeNode(n) if n == a.0));
    assert!(Location::after(inner, &f).next(&f).is_none());
    assert_eq!(at_a.parent_node(&f).map(|p| p.0), Some(list.0));
    assert_eq!(at_a.right_node(&f).map(|p| p.0), Some(b.0));
    assert_eq!(after(at_a.after_parent(&f)), slot(list));
    assert_eq!(at_a.root_node(&f).0, list.0);
}

#[test]
fn inorder_walk_visits_every_place() {
    let mut f = Forest::new();
    let (list, a, b, inner) = sample(&mut f);
    let start = Location::before_children(list, &f).unwrap();
    let l1 = start.inorder_next(&f).unwrap();
    assert_eq!(after(Some(l1)), slot(a));
    let l2 = l1.inorder_next(&f).unwrap();
    assert_eq!(after(Some(l2)), slot(b));
    let l3 = l2.inorder_next(&f).unwrap();
    assert!(matches!(l3.0, LocationInner::BelowNode(n) if n == inner.0));
    let l4 = l3.inorder_next(&f).unwrap();
    assert_eq!(after(Some(l4)), slot(inner));
    let l5 = l4.inorder_next(&f).unwrap();
    assert_eq!(after(Some(l5)), slot(list));
    assert!(l5.inorder_next(&f).is_none());
    assert!(matches!(l4.inorder_prev(&f).unwrap().0, LocationInner::BelowNode(n) if n == inner.0));
    assert!(matches!(l3.inorder_prev(&f).unwrap().0, LocationInner::AfterNode(n) if n == b.0));
}

#[test]
fn enter_and_exit_text() {
    let mut f = Forest::new();
    let (_, a, b, inner) = sample(&mut f);
    let at_b = Location::after(b, &f);
    assert_eq!(at_b.mode(), Mode::Tree);
    let in_b = at_b.enter_text(&f).unwrap();
    assert_eq!(in_b.mode(), Mode::Text);
    assert_eq!(in_b.text_pos().map(|(n, i)| (n.0, i)), Some((b.0, 2)));
    assert_eq!(after(in_b.exit_text()), slot(b));
    assert!(Location::after(inner, &f).enter_text(&f).is_none());
    assert!(Location::before(a, &f).enter_text(&f).is_none());
}

#[test]
fn bookmark_survives_a_move_within_the_tree() {
    let mut f = Forest::new();
    let (list, a, _, inner) = sample(&mut f);
    let here = Location::after(list, &f);
    let mark = Location::after(a, &f).bookmark();
    a.detach(&mut f);
    assert!(inner.insert_child(&mut f, 0, a));
    assert_eq!(after(here.validate_bookmark(mark, &f)), slot(a));
    a.delete(&mut f);
    assert!(here.validate_bookmark(mark, &f).is_none());
}

#[test]
fn bookmark_in_another_tree_is_refused() {
    let mut f = Forest::new();
    let (list, a, _, _) = sample(&mut f);
    let other = f.new_branch("other".to_string());
    let mark = Location::after(a, &f).bookmark();
    assert!(Location::after(other, &f).validate_bookmark(mark, &f).is_none());
    assert!(Location::after(list, &f).validate_bookmark(mark, &f).is_some());
}

#[test]
fn text_bookmarks_are_clamped() {
    let mut f = Forest::new();
    let (list, _, b, _) = sample(&mut f);
    let mark = Location::after(b, &f).enter_text(&f).unwrap().bookmark();
    *b.leaf_mut(&mut f) = "y".to_string();
    let back = Location::after(list, &f).validate_bookmark(mark, &f).unwrap();
    assert_eq!(back.text_pos().map(|(n, i)| (n.0, i)), Some((b.0, 1)));
}

#[test]
fn cursor_halves_and_siblings() {
    let mut f = Forest::new();
    let (list, a, b, _) = sample(&mut f);
    let (left, right) = Location::after(a, &f).cursor_halves(&f);
    assert_eq!(left.map(|n| n.0), Some(a.0));
    assert_eq!(right.map(|n| n.0), Some(b.0));
    let (left, right) = Location::before(a, &f).cursor_halves(&f);
    assert!(left.is_none());
    assert_eq!(right.map(|n| n.0), Some(a.0));
    assert_eq!(b.siblings(&f).map(|s| s.len()), Some(3));
    assert!(list.siblings(&f).is_none());
}
