use synless::engine::Engine;
use synless::forest::{Forest, Node};
use synless::keymap::{
    make_keyhint_doc, ArityKind, Binding, Filter, FilterContext, Key, KeymapError, Keymap, Layer,
    LayerManager, MenuSelectionCmd,
};
use synless::location::{Location, Mode};
use synless::runtime::{KeyAction, KeyLookupResult, Runtime};

fn key(ch: char) -> Key {
    Key { ch, ctrl: false, alt: false }
}

fn keymap(bindings: &[(char, &'static str)]) -> Keymap<&'static str> {
    Keymap {
        bindings: bindings
            .iter()
            .map(|(c, p)| Binding { key: key(*c), result: KeyLookupResult::KeyProg(*p), filter: None })
            .collect(),
    }
}

fn layer(name: &str, tree: &[(char, &'static str)], text: &[(char, &'static str)]) -> Layer<&'static str> {
    Layer { name: name.to_string(), tree_keymap: keymap(tree), text_keymap: keymap(text) }
}

fn prog(r: Option<KeyLookupResult<&'static str>>) -> Option<&'static str> {
    match r {
        Some(KeyLookupResult::KeyProg(p)) => Some(p),
        _ => None,
    }
}

#[test]
fn the_last_activated_layer_wins() {
    let mut m = LayerManager::new();
    m.register_layer(layer("base", &[('a', "base-a"), ('b', "base-b")], &[]));
    m.register_layer(layer("extra", &[('a', "extra-a")], &[('a', "text-a")]));
    assert_eq!(m.add_global_layer(&"base".to_string()), Ok(()));
    assert_eq!(m.add_global_layer(&"extra".to_string()), Ok(()));
    assert_eq!(prog(m.lookup_key(Mode::Tree, &None, key('a'))), Some("extra-a"));
    assert_eq!(prog(m.lookup_key(Mode::Tree, &None, key('b'))), Some("base-b"));
    assert_eq!(prog(m.lookup_key(Mode::Text, &None, key('a'))), Some("text-a"));
    assert_eq!(prog(m.lookup_key(Mode::Text, &None, key('b'))), None);
    assert_eq!(m.remove_global_layer(&"extra".to_string()), Ok(()));
    assert_eq!(prog(m.lookup_key(Mode::Tree, &None, key('a'))), Some("base-a"));
    assert_eq!(m.add_global_layer(&"missing".to_string()), Err(KeymapError::UnknownLayer));
    assert_eq!(m.remove_global_layer(&"extra".to_string()), Err(KeymapError::UnknownLayer));
}

#[test]
fn an_open_menu_comes_first_and_only_one_opens() {
    let mut m = LayerManager::new();
    m.register_layer(layer("base", &[('a', "base-a")], &[]));
    m.add_global_layer(&"base".to_string()).unwrap();
    m.open_menu("node".to_string(), "insert a node".to_string(), Some(keymap(&[('a', "menu-a")]))).unwrap();
    assert!(m.has_open_menu());
    assert_eq!(prog(m.lookup_key(Mode::Tree, &None, key('a'))), Some("menu-a"));
    assert_eq!(
        m.open_menu("other".to_string(), String::new(), None),
        Err(KeymapError::MenuAlreadyOpen)
    );
    m.close_menu();
    assert!(!m.has_open_menu());
    assert_eq!(prog(m.lookup_key(Mode::Tree, &None, key('a'))), Some("base-a"));
}

#[test]
fn runtime_handles_keys() {
    let mut f = Forest::new();
    let list = f.new_branch("list".to_string());
    let s = f.new_leaf("string".to_string(), String::new());
    let mut loc = Location::before_children(list, &f).unwrap();
    loc.insert(s, &mut f).unwrap();
    let loc = loc.enter_text(&f).unwrap();
    let mut rt: Runtime<&'static str> = Runtime::new(Engine::new(f, loc));
    let mut text = layer("text", &[], &[]);
    text.text_keymap.bindings.push(Binding { key: key('x'), result: KeyLookupResult::InsertChar('x'), filter: None });
    text.text_keymap.bindings.push(Binding {
        key: Key { ch: 'q', ctrl: true, alt: false },
        result: KeyLookupResult::KeyProg("quit"),
        filter: None,
    });
    rt.register_layer(text);
    rt.add_global_layer(&"text".to_string()).unwrap();
    assert!(matches!(rt.handle_key(key('x')), Ok(KeyAction::InsertChar('x'))));
    assert_eq!(s.leaf(&rt.engine.forest), "x");
    assert!(matches!(
        rt.handle_key(Key { ch: 'q', ctrl: true, alt: false }),
        Ok(KeyAction::RunProg { prog: "quit", end_undo_group: false })
    ));
    assert!(matches!(rt.handle_key(key('z')), Ok(KeyAction::Ignore)));
    rt.undo().unwrap();
    assert_eq!(s.leaf(&rt.engine.forest), "");
}

fn ctx(construct: &str, self_arity: ArityKind, parent_arity: Option<ArityKind>) -> Option<FilterContext> {
    Some(FilterContext { construct: construct.to_string(), self_arity, parent_arity })
}

#[test]
fn filters_gate_tree_bindings_by_the_node_at_the_cursor() {
    let mut base = layer("base", &[('d', "generic-d")], &[]);
    base.tree_keymap.bindings.insert(
        0,
        Binding {
            key: key('d'),
            result: KeyLookupResult::KeyProg("list-d"),
            filter: Some(Filter { construct: None, self_arity: Some(ArityKind::Listy), parent_arity: None }),
        },
    );
    base.tree_keymap.bindings.push(Binding {
        key: key('s'),
        result: KeyLookupResult::KeyProg("in-fixed"),
        filter: Some(Filter {
            construct: Some("string".to_string()),
            self_arity: None,
            parent_arity: Some(ArityKind::Fixed),
        }),
    });
    let mut m = LayerManager::new();
    m.register_layer(base);
    m.add_global_layer(&"base".to_string()).unwrap();
    assert_eq!(prog(m.lookup_key(Mode::Tree, &ctx("list", ArityKind::Listy, None), key('d'))), Some("list-d"));
    assert_eq!(prog(m.lookup_key(Mode::Tree, &ctx("true", ArityKind::Fixed, None), key('d'))), Some("generic-d"));
    assert_eq!(prog(m.lookup_key(Mode::Tree, &None, key('d'))), Some("generic-d"));
    assert_eq!(
        prog(m.lookup_key(Mode::Tree, &ctx("string", ArityKind::Texty, Some(ArityKind::Fixed)), key('s'))),
        Some("in-fixed")
    );
    assert_eq!(
        prog(m.lookup_key(Mode::Tree, &ctx("string", ArityKind::Texty, Some(ArityKind::Listy)), key('s'))),
        None
    );
    let hints = m.key_hints(Mode::Tree, &ctx("list", ArityKind::Listy, None));
    assert_eq!(hints.len(), 1);
    assert_eq!(hints[0], (key('d'), "list-d"));
}

#[test]
fn key_hints_list_each_effective_program_once() {
    let mut m = LayerManager::new();
    m.register_layer(layer("base", &[('a', "base-a"), ('b', "base-b")], &[]));
    m.register_layer(layer("extra", &[('a', "extra-a"), ('c', "extra-c")], &[]));
    m.add_global_layer(&"base".to_string()).unwrap();
    m.add_global_layer(&"extra".to_string()).unwrap();
    let mut hints = m.key_hints(Mode::Tree, &None);
    hints.sort_by_key(|(k, _)| k.ch);
    assert_eq!(hints, vec![(key('a'), "extra-a"), (key('b'), "base-b"), (key('c'), "extra-c")]);
    assert!(m.key_hints(Mode::Text, &None).is_empty());
}

#[test]
fn key_hint_document() {
    let mut f = Forest::new();
    let hints = vec![("a".to_string(), "extra-a".to_string()), ("b".to_string(), "base-b".to_string())];
    let doc = make_keyhint_doc(&mut f, &hints);
    assert_eq!(doc.data(&f), "keyhints");
    let kids = doc.children(&f).clone();
    assert_eq!(kids.len(), 2);
    assert_eq!(Node(kids[1]).data(&f), "b");
    assert_eq!(Node(kids[1]).leaf(&f), "base-b");
}

#[test]
fn menu_candidates_filter_and_select() {
    let mut m: LayerManager<&'static str> = LayerManager::new();
    use_menu(&mut m);
    assert_eq!(m.selected_candidate().map(|s| s.as_str()), Some("list"));
    m.edit_menu_selection(MenuSelectionCmd::Down).unwrap();
    m.edit_menu_selection(MenuSelectionCmd::Down).unwrap();
    assert_eq!(m.selected_candidate().map(|s| s.as_str()), Some("true"));
    m.edit_menu_selection(MenuSelectionCmd::Down).unwrap();
    assert_eq!(m.selected_candidate().map(|s| s.as_str()), Some("true"));
    m.edit_menu_selection(MenuSelectionCmd::Up).unwrap();
    assert_eq!(m.selected_candidate().map(|s| s.as_str()), Some("string"));
    m.edit_menu_selection(MenuSelectionCmd::Insert('s')).unwrap();
    assert_eq!(m.selected_candidate().map(|s| s.as_str()), Some("string"));
    m.edit_menu_selection(MenuSelectionCmd::Insert('x')).unwrap();
    assert_eq!(m.selected_candidate(), None);
    m.edit_menu_selection(MenuSelectionCmd::Backspace).unwrap();
    m.edit_menu_selection(MenuSelectionCmd::Backspace).unwrap();
    m.edit_menu_selection(MenuSelectionCmd::Backspace).unwrap();
    assert_eq!(m.selected_candidate().map(|s| s.as_str()), Some("list"));
    m.close_menu();
    assert_eq!(m.edit_menu_selection(MenuSelectionCmd::Up), Err(KeymapError::NoOpenMenu));
    assert_eq!(m.selected_candidate(), None);
}

fn use_menu(m: &mut LayerManager<&'static str>) {
    m.open_menu("node".to_string(), "insert a node".to_string(), None).unwrap();
    m.set_menu_candidates(vec!["list".to_string(), "string".to_string(), "true".to_string()])
        .unwrap();
}
