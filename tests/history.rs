use synless::history::UndoHistory;

#[test]
fn undo_and_redo_walk_the_stacks() {
    let mut h = UndoHistory::new();
    h.commit("insert true");
    h.commit("insert null");
    assert_eq!(h.take_undo(), Some("insert null"));
    h.finish_undo("delete null");
    assert_eq!(h.take_redo(), Some("delete null"));
    h.finish_redo("insert null again");
    assert_eq!(h.undo_stack, vec!["insert true", "insert null again"]);
    assert!(h.redo_stack.is_empty());
}

#[test]
fn a_commit_forgets_what_could_be_redone() {
    let mut h = UndoHistory::new();
    h.commit(1);
    assert_eq!(h.take_undo(), Some(1));
    h.finish_undo(-1);
    h.commit(2);
    assert!(h.redo_stack.is_empty());
    assert_eq!(h.take_redo(), None);
}

#[test]
fn nothing_to_undo_or_redo_leaves_the_history_unchanged() {
    let mut h: UndoHistory<u8> = UndoHistory::new();
    assert_eq!(h.take_undo(), None);
    assert_eq!(h.take_redo(), None);
    h.commit(5);
    assert_eq!(h.take_redo(), None);
    assert_eq!(h.undo_stack, vec![5]);
}

#[test]
fn undoing_every_commit_restores_the_undo_stack() {
    let mut h = UndoHistory::new();
    h.commit(10);
    let before = h.undo_stack.clone();
    for g in [1, 2, 3] {
        h.commit(g);
    }
    for _ in 0..3 {
        let g = h.take_undo().unwrap();
        h.finish_undo(-g);
    }
    assert_eq!(h.undo_stack, before);
    assert_eq!(h.redo_stack, vec![-3, -2, -1]);
}
