use synless::engine::{
    ClipboardCommand, EditError, Engine, TextEdCommand, TextNavCommand, TreeEdCommand,
    TreeNavCommand,
};
use synless::forest::{Forest, Node};
use synless::location::{Location, Mode};

/// Render a JSON-like tree: lists in brackets, other nodes by their data.
fn render(f: &Forest, n: Node) -> String {
    let data = n.data(f).clone();
    if data == "root" {
        return render(f, Node(n.children(f)[0]));
    }
    if data == "list" {
        let items: Vec<String> = n.children(f).iter().map(|c| render(f, Node(*c))).collect();
        return format!("[{}]", items.join(", "));
    }
    if n.is_leaf(f) {
        return format!("\"{}\"", n.leaf(f));
    }
    data
}

fn value(f: &mut Forest, name: &str) -> Node {
    f.new_fixed_branch(name.to_string(), 0)
}

fn start() -> (Engine, Node) {
    let mut f = Forest::new();
    let root = f.new_fixed_branch("root".to_string(), 1);
    let loc = Location::before_children(root, &f).unwrap();
    (Engine::new(f, loc), root)
}

fn insert(e: &mut Engine, node: Node) {
    e.execute_tree_ed(TreeEdCommand::Insert(node)).unwrap();
}

#[test]
fn test_json_undo_redo() {
    let (mut e, root) = start();
    assert_eq!(render(&e.forest, root), "?");

    let list = e.forest.new_branch("list".to_string());
    insert(&mut e, list);
    e.execute_tree_nav(TreeNavCommand::LastChild).unwrap();
    let t = value(&mut e.forest, "true");
    insert(&mut e, t);
    e.end_undo_group();
    let n = value(&mut e.forest, "null");
    insert(&mut e, n);
    e.end_undo_group();
    assert_eq!(render(&e.forest, root), "[true, null]");

    e.execute_tree_nav(TreeNavCommand::Prev).unwrap();
    let fl = value(&mut e.forest, "false");
    insert(&mut e, fl);
    e.end_undo_group();
    assert_eq!(render(&e.forest, root), "[true, false, null]");

    e.undo().unwrap();
    assert_eq!(render(&e.forest, root), "[true, null]");
    e.undo().unwrap();
    assert_eq!(render(&e.forest, root), "[true]");
    e.redo().unwrap();
    assert_eq!(render(&e.forest, root), "[true, null]");
    e.redo().unwrap();
    assert_eq!(render(&e.forest, root), "[true, false, null]");
    e.undo().unwrap();
    assert_eq!(render(&e.forest, root), "[true, null]");

    e.execute_tree_nav(TreeNavCommand::Next).unwrap();
    let empty = e.forest.new_branch("list".to_string());
    insert(&mut e, empty);
    e.end_undo_group();
    assert_eq!(render(&e.forest, root), "[true, null, []]");

    e.undo().unwrap();
    assert_eq!(render(&e.forest, root), "[true, null]");
    e.undo().unwrap();
    assert_eq!(render(&e.forest, root), "[true]");
    e.undo().unwrap();
    assert_eq!(render(&e.forest, root), "?");
    e.redo().unwrap();
    assert_eq!(render(&e.forest, root), "[true]");
    e.redo().unwrap();
    assert_eq!(render(&e.forest, root), "[true, null]");
    e.redo().unwrap();
    assert_eq!(render(&e.forest, root), "[true, null, []]");

    assert_eq!(e.redo(), Err(EditError::NothingToRedo));
    assert_eq!(render(&e.forest, root), "[true, null, []]");
}

#[test]
fn enter_and_exit_text_in_a_list() {
    let (mut e, root) = start();
    let list = e.forest.new_branch("list".to_string());
    insert(&mut e, list);
    e.execute_tree_nav(TreeNavCommand::LastChild).unwrap();
    let s = e.forest.new_leaf("string".to_string(), String::new());
    insert(&mut e, s);
    assert_eq!(e.loc.mode(), Mode::Tree);
    e.execute_tree_nav(TreeNavCommand::EnterText).unwrap();
    assert_eq!(e.loc.mode(), Mode::Text);
    e.exit_text().unwrap();
    assert_eq!(e.loc.mode(), Mode::Tree);
    assert_eq!(e.exit_text(), Err(EditError::NoSuchPosition));
    assert_eq!(render(&e.forest, root), "[\"\"]");
}

#[test]
fn backspace_and_its_undo() {
    let (mut e, root) = start();
    let list = e.forest.new_branch("list".to_string());
    insert(&mut e, list);
    e.execute_tree_nav(TreeNavCommand::LastChild).unwrap();
    for name in ["1", "2", "3"] {
        let v = value(&mut e.forest, name);
        insert(&mut e, v);
    }
    e.end_undo_group();
    e.execute_tree_nav(TreeNavCommand::Prev).unwrap();
    e.execute_tree_ed(TreeEdCommand::Backspace).unwrap();
    e.end_undo_group();
    assert_eq!(render(&e.forest, root), "[1, 3]");
    e.undo().unwrap();
    assert_eq!(render(&e.forest, root), "[1, 2, 3]");
    assert_eq!(e.undo(), Ok(()));
    assert_eq!(render(&e.forest, root), "?");
    assert_eq!(e.undo(), Err(EditError::NothingToUndo));
}

#[test]
fn backspace_in_a_fixed_slot_and_undo() {
    let (mut e, root) = start();
    let v = value(&mut e.forest, "7");
    insert(&mut e, v);
    e.end_undo_group();
    assert_eq!(render(&e.forest, root), "7");
    e.execute_tree_ed(TreeEdCommand::Backspace).unwrap();
    e.end_undo_group();
    assert_eq!(render(&e.forest, root), "?");
    e.undo().unwrap();
    assert_eq!(render(&e.forest, root), "7");
}

#[test]
fn navigation_failures_change_nothing() {
    let (mut e, _) = start();
    assert_eq!(e.execute_tree_nav(TreeNavCommand::Prev), Err(EditError::NoSuchPosition));
    assert_eq!(e.execute_tree_ed(TreeEdCommand::Backspace), Err(EditError::NothingToDelete));
}

#[test]
fn test_json_string() {
    let (mut e, root) = start();
    let list = e.forest.new_branch("list".to_string());
    insert(&mut e, list);
    e.execute_tree_nav(TreeNavCommand::LastChild).unwrap();
    let s = e.forest.new_leaf("string".to_string(), String::new());
    insert(&mut e, s);
    assert_eq!(e.loc.mode(), Mode::Tree);
    e.execute_tree_nav(TreeNavCommand::EnterText).unwrap();
    assert_eq!(e.loc.mode(), Mode::Text);
    e.exit_text().unwrap();
    assert_eq!(e.loc.mode(), Mode::Tree);
    e.execute_tree_nav(TreeNavCommand::EnterText).unwrap();
    e.execute_text_ed(TextEdCommand::Insert('a')).unwrap();
    assert_eq!(render(&e.forest, root), "[\"a\"]");
}

#[test]
fn text_edits_navigate_and_undo() {
    let (mut e, root) = start();
    let s = e.forest.new_leaf("string".to_string(), "héllo".to_string());
    insert(&mut e, s);
    e.end_undo_group();
    e.execute_tree_nav(TreeNavCommand::EnterText).unwrap();
    assert_eq!(e.loc.text_pos().map(|(_, i)| i), Some(5));
    e.execute_text_nav(TextNavCommand::Beginning).unwrap();
    e.execute_text_nav(TextNavCommand::Right).unwrap();
    e.execute_text_ed(TextEdCommand::Delete).unwrap();
    assert_eq!(render(&e.forest, root), "\"hllo\"");
    e.execute_text_ed(TextEdCommand::Insert('e')).unwrap();
    e.execute_text_ed(TextEdCommand::Insert('y')).unwrap();
    assert_eq!(render(&e.forest, root), "\"heyllo\"");
    e.execute_text_ed(TextEdCommand::Backspace).unwrap();
    assert_eq!(render(&e.forest, root), "\"hello\"");
    e.undo().unwrap();
    assert_eq!(render(&e.forest, root), "\"héllo\"");
    e.redo().unwrap();
    assert_eq!(render(&e.forest, root), "\"hello\"");
}

#[test]
fn text_commands_outside_text_or_past_the_ends_fail() {
    let (mut e, _) = start();
    assert_eq!(e.execute_text_ed(TextEdCommand::Insert('x')), Err(EditError::NoSuchPosition));
    assert_eq!(e.execute_text_nav(TextNavCommand::Left), Err(EditError::NoSuchPosition));
    let s = e.forest.new_leaf("string".to_string(), "z".to_string());
    insert(&mut e, s);
    e.execute_tree_nav(TreeNavCommand::EnterText).unwrap();
    assert_eq!(e.execute_text_nav(TextNavCommand::Right), Err(EditError::NoSuchPosition));
    assert_eq!(e.execute_text_ed(TextEdCommand::Delete), Err(EditError::NothingToDelete));
    e.execute_text_nav(TextNavCommand::Left).unwrap();
    assert_eq!(e.execute_text_ed(TextEdCommand::Backspace), Err(EditError::NothingToDelete));
}

#[test]
fn bookmark_survives_a_move_and_not_a_deletion() {
    let (mut e, root) = start();
    let list = e.forest.new_branch("list".to_string());
    insert(&mut e, list);
    e.execute_tree_nav(TreeNavCommand::LastChild).unwrap();
    let a = value(&mut e.forest, "a");
    let x = value(&mut e.forest, "x");
    let b = value(&mut e.forest, "b");
    insert(&mut e, a);
    insert(&mut e, x);
    e.save_bookmark('m');
    insert(&mut e, b);
    assert_eq!(render(&e.forest, root), "[a, x, b]");

    e.execute_tree_nav(TreeNavCommand::Prev).unwrap();
    e.execute_tree_ed(TreeEdCommand::Backspace).unwrap();
    e.execute_tree_nav(TreeNavCommand::Last).unwrap();
    insert(&mut e, x);
    assert_eq!(render(&e.forest, root), "[a, b, x]");
    e.execute_tree_nav(TreeNavCommand::First).unwrap();

    e.goto_bookmark('m').unwrap();
    assert_eq!(e.loc.left_node(&e.forest).map(|n| n.0), Some(x.0));

    e.execute_tree_nav(TreeNavCommand::First).unwrap();
    x.delete(&mut e.forest);
    assert_eq!(render(&e.forest, root), "[a, b]");
    let before = e.loc.0;
    assert_eq!(e.goto_bookmark('m'), Err(EditError::NoSuchPosition));
    assert!(matches!((before, e.loc.0), (synless::location::LocationInner::BeforeNode(p), synless::location::LocationInner::BeforeNode(q)) if p == q));
    assert_eq!(e.goto_bookmark('z'), Err(EditError::NoSuchPosition));
}

/// A list `[1, 2]` in the root slot, with the cursor after `2`.
fn list_of_two() -> (Engine, Node) {
    let (mut e, root) = start();
    let list = e.forest.new_branch("list".to_string());
    insert(&mut e, list);
    e.execute_tree_nav(TreeNavCommand::LastChild).unwrap();
    for name in ["1", "2"] {
        let v = value(&mut e.forest, name);
        insert(&mut e, v);
    }
    e.end_undo_group();
    (e, root)
}

#[test]
fn copy_and_paste() {
    let (mut e, root) = list_of_two();
    e.execute_clipboard(ClipboardCommand::Copy).unwrap();
    e.execute_clipboard(ClipboardCommand::Paste).unwrap();
    e.execute_clipboard(ClipboardCommand::Paste).unwrap();
    assert_eq!(render(&e.forest, root), "[1, 2, 2, 2]");
    assert_eq!(e.clipboard.len(), 1);
}

#[test]
fn cut_and_undo_restores_tree_and_clipboard() {
    let (mut e, root) = list_of_two();
    e.execute_clipboard(ClipboardCommand::Cut).unwrap();
    e.end_undo_group();
    assert_eq!(render(&e.forest, root), "[1]");
    assert_eq!(e.clipboard.len(), 1);
    e.execute_clipboard(ClipboardCommand::Paste).unwrap();
    assert_eq!(render(&e.forest, root), "[1, 2]");
    e.undo().unwrap();
    assert_eq!(render(&e.forest, root), "[1]");
    e.undo().unwrap();
    assert_eq!(render(&e.forest, root), "[1, 2]");
    assert!(e.clipboard.is_empty());
}

#[test]
fn copy_is_deep() {
    let (mut e, root) = start();
    let outer = e.forest.new_branch("list".to_string());
    insert(&mut e, outer);
    e.execute_tree_nav(TreeNavCommand::LastChild).unwrap();
    let inner = e.forest.new_branch("list".to_string());
    insert(&mut e, inner);
    e.execute_tree_nav(TreeNavCommand::LastChild).unwrap();
    let s = e.forest.new_leaf("string".to_string(), "q".to_string());
    insert(&mut e, s);
    e.execute_tree_nav(TreeNavCommand::Parent).unwrap();
    e.execute_clipboard(ClipboardCommand::Copy).unwrap();
    e.execute_clipboard(ClipboardCommand::Paste).unwrap();
    assert_eq!(render(&e.forest, root), "[[\"q\"], [\"q\"]]");
    let copy = e.clipboard[0];
    assert_ne!(copy.0, inner.0);
    assert!(copy.parent(&e.forest).is_none());
}

#[test]
fn paste_swap_trades_the_right_node() {
    let (mut e, root) = list_of_two();
    let x = value(&mut e.forest, "x");
    e.clipboard.push(x);
    e.execute_tree_nav(TreeNavCommand::First).unwrap();
    e.execute_clipboard(ClipboardCommand::PasteSwap).unwrap();
    assert_eq!(render(&e.forest, root), "[x, 2]");
    assert_eq!(e.clipboard.len(), 1);
    assert_eq!(render(&e.forest, e.clipboard[0]), "1");
}

#[test]
fn paste_swap_in_a_fixed_slot() {
    let (mut e, root) = start();
    let x = value(&mut e.forest, "x");
    e.clipboard.push(x);
    e.execute_clipboard(ClipboardCommand::PasteSwap).unwrap();
    assert_eq!(render(&e.forest, root), "x");
    assert_eq!(render(&e.forest, e.clipboard[0]), "?");
}

#[test]
fn dup_and_pop() {
    let (mut e, _) = list_of_two();
    assert_eq!(e.execute_clipboard(ClipboardCommand::Pop), Err(EditError::ClipboardEmpty));
    assert_eq!(e.execute_clipboard(ClipboardCommand::Dup), Err(EditError::ClipboardEmpty));
    assert_eq!(e.execute_clipboard(ClipboardCommand::Paste), Err(EditError::ClipboardEmpty));
    e.execute_clipboard(ClipboardCommand::Copy).unwrap();
    e.execute_clipboard(ClipboardCommand::Dup).unwrap();
    assert_eq!(e.clipboard.len(), 2);
    assert_ne!(e.clipboard[0].0, e.clipboard[1].0);
    e.execute_clipboard(ClipboardCommand::Pop).unwrap();
    assert_eq!(e.clipboard.len(), 1);
    e.execute_tree_nav(TreeNavCommand::First).unwrap();
    assert_eq!(e.execute_clipboard(ClipboardCommand::Copy), Err(EditError::NothingToCopy));
}
