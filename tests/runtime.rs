use synless::location::Mode;
use synless::pane::{PaneNotation, PaneSize};
use synless::runtime::{
    event_action, key_action, make_pane_notation, EventAction, EventKind, KeyAction,
    KeyLookupResult, KEYHINTS_PANE_WIDTH,
};

#[test]
fn tree_mode_key_programs_close_the_undo_group() {
    let a = key_action(Mode::Tree, false, Some(KeyLookupResult::KeyProg("next")));
    assert!(matches!(a, KeyAction::RunProg { prog: "next", end_undo_group: true }));
}

#[test]
fn text_mode_and_menus_keep_the_undo_group_open() {
    let a = key_action(Mode::Text, false, Some(KeyLookupResult::KeyProg(7)));
    assert!(matches!(a, KeyAction::RunProg { prog: 7, end_undo_group: false }));
    let b = key_action(Mode::Tree, true, Some(KeyLookupResult::KeyProg(7)));
    assert!(matches!(b, KeyAction::RunProg { prog: 7, end_undo_group: false }));
}

#[test]
fn unbound_keys_do_nothing_and_others_pass_through() {
    assert!(matches!(key_action::<u8>(Mode::Tree, false, None), KeyAction::Ignore));
    assert!(matches!(
        key_action::<u8>(Mode::Text, false, Some(KeyLookupResult::InsertChar('x'))),
        KeyAction::InsertChar('x')
    ));
    assert!(matches!(
        key_action::<u8>(Mode::Tree, false, Some(KeyLookupResult::Redisplay)),
        KeyAction::Redisplay
    ));
}

#[test]
fn events_are_dispatched() {
    assert_eq!(event_action(EventKind::Key, true), EventAction::Abort);
    assert_eq!(event_action(EventKind::Key, false), EventAction::LookUpKey);
    assert_eq!(event_action(EventKind::Resize, false), EventAction::Redisplay);
    assert_eq!(event_action(EventKind::Mouse, false), EventAction::Ignore);
    assert_eq!(event_action(EventKind::Paste, false), EventAction::Ignore);
}

#[test]
fn main_layout_has_document_divider_and_hints() {
    match make_pane_notation() {
        PaneNotation::Horz { panes, .. } => {
            let sizes: Vec<PaneSize> = panes.iter().map(|p| p.0).collect();
            assert_eq!(
                sizes,
                vec![
                    PaneSize::Proportional(1),
                    PaneSize::Fixed(1),
                    PaneSize::Fixed(KEYHINTS_PANE_WIDTH)
                ]
            );
        }
        _ => panic!("the main layout is a horizontal split"),
    }
}
