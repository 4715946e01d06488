use vstd::prelude::*;

use crate::docs::{extension_of, language_for, lookup_extension, path_extension, DocError, DocName};
use crate::engine::{text_changed, ClipboardCommand, EditError, Engine, TextEdCommand, TreeEdCommand};
use crate::location::{
    can_insert, insert_done, is_normal, is_text, leaf_text, parent_of, spec_left_node, spec_parent_node,
    spec_right_node, Location, LocationInner,
};
use crate::forest::{Forest, Node};
use crate::keymap::{ArityKind, FilterContext, Key, Keymap, Layer, LayerManager, MenuSelectionCmd};
use generational_arena::Index;
use crate::location::Mode;
use crate::pane::{DocLabel, PaneNotation, PaneSize};
use crate::style::{Base16Color, Priority, Style};

verus! {

/// Width of the key hints column of the main layout.
pub const KEYHINTS_PANE_WIDTH: usize = 15;

/// What a key is bound to in the effective keymap. `P` is the program that
/// the scripting host runs.
#[derive(Clone, Copy, Debug)]
pub enum KeyLookupResult<P> {
    KeyProg(P),
    Redisplay,
    InsertChar(char),
}

/// What the editor does about one key press.
#[derive(Clone, Copy, Debug)]
pub enum KeyAction<P> {
    /// The key is not bound: nothing happens.
    Ignore,
    /// Hand `prog` to the scripting host, after closing the open undo
    /// group if `end_undo_group`.
    RunProg { prog: P, end_undo_group: bool },
    /// Draw the screen again.
    Redisplay,
    /// Insert the character into the text, then draw the screen again.
    InsertChar(char),
}

/// The input events that the frontend delivers.
#[derive(Clone, Copy, Debug)]
pub enum EventKind {
    Key,
    Resize,
    Mouse,
    Paste,
}

/// What the event loop does about one event.
#[derive(Clone, Copy, Debug, PartialEq, Eq, Structural)]
pub enum EventAction {
    /// Stop: the user interrupted the editor.
    Abort,
    /// Look the key up in the layers.
    LookUpKey,
    /// Draw the screen again.
    Redisplay,
    /// Nothing to do.
    Ignore,
}

pub open spec fn spec_key_action<P>(
    mode: Mode,
    has_open_menu: bool,
    lookup: Option<KeyLookupResult<P>>,
) -> KeyAction<P> {
    match lookup {
        None => KeyAction::Ignore,
        Some(KeyLookupResult::KeyProg(prog)) => KeyAction::RunProg {
            prog,
            end_undo_group: mode != Mode::Text && !has_open_menu,
        },
        Some(KeyLookupResult::Redisplay) => KeyAction::Redisplay,
        Some(KeyLookupResult::InsertChar(ch)) => KeyAction::InsertChar(ch),
    }
}

/// Decide what a key press does, given what it is bound to. Each key
/// pressed in tree mode starts a new undo group; text edits, and edits made
/// while a menu is open, are grouped together.
pub fn key_action<P>(mode: Mode, has_open_menu: bool, lookup: Option<KeyLookupResult<P>>) -> (r:
    KeyAction<P>)
    ensures
        r == spec_key_action(mode, has_open_menu, lookup),
{
    match lookup {
        None => KeyAction::Ignore,
        Some(KeyLookupResult::KeyProg(prog)) => {
            let end_undo_group = mode != Mode::Text && !has_open_menu;
            KeyAction::RunProg { prog, end_undo_group }
        },
        Some(KeyLookupResult::Redisplay) => KeyAction::Redisplay,
        Some(KeyLookupResult::InsertChar(ch)) => KeyAction::InsertChar(ch),
    }
}

pub open spec fn spec_event_action(event: EventKind, is_interrupt: bool) -> EventAction {
    match event {
        EventKind::Key => if is_interrupt {
            EventAction::Abort
        } else {
            EventAction::LookUpKey
        },
        EventKind::Resize => EventAction::Redisplay,
        EventKind::Mouse | EventKind::Paste => EventAction::Ignore,
    }
}

/// Decide what the event loop does with an event. `is_interrupt` tells
/// whether a key event is the interrupt key (Ctrl-C).
pub fn event_action(event: EventKind, is_interrupt: bool) -> (r: EventAction)
    ensures
        r == spec_event_action(event, is_interrupt),
{
    match event {
        EventKind::Key => if is_interrupt {
            EventAction::Abort
        } else {
            EventAction::LookUpKey
        },
        EventKind::Resize => EventAction::Redisplay,
        EventKind::Mouse | EventKind::Paste => EventAction::Ignore,
    }
}

/// The sizes of the subpanes of a split notation; empty for the others.
pub open spec fn pane_sizes(note: PaneNotation) -> Seq<PaneSize> {
    match note {
        PaneNotation::Horz { panes, .. } => panes@.map_values(|p: (PaneSize, PaneNotation)| p.0),
        PaneNotation::Vert { panes, .. } => panes@.map_values(|p: (PaneSize, PaneNotation)| p.0),
        _ => Seq::empty(),
    }
}

/// The left column: the active document, a bar with the keymap's name,
/// and the selection menu as high as it needs.
pub open spec fn main_column(n: PaneNotation) -> bool {
    &&& n is Vert
    &&& pane_sizes(n) == seq![PaneSize::Proportional(1), PaneSize::Fixed(1), PaneSize::DynHeight]
    &&& n->Vert_panes@[0].1 == (PaneNotation::Doc { label: DocLabel::ActiveDoc, style: None })
    &&& n->Vert_panes@[2].1 == (PaneNotation::Doc { label: DocLabel::SelectionMenu, style: None })
    &&& n->Vert_panes@[1].1 is Horz
    &&& pane_sizes(n->Vert_panes@[1].1) == seq![PaneSize::Fixed(1), PaneSize::Proportional(1)]
    &&& n->Vert_panes@[1].1->Horz_panes@[1].1 == (PaneNotation::Doc { label: DocLabel::KeymapName, style: None })
    &&& n->Vert_panes@[1].1->Horz_panes@[0].1 == (PaneNotation::Fill { ch: ' ', style: None })
}

/// The right column: the key hints as high as they need, at the bottom.
pub open spec fn hints_column(n: PaneNotation) -> bool {
    &&& n is Vert
    &&& pane_sizes(n) == seq![PaneSize::Proportional(1), PaneSize::DynHeight, PaneSize::Fixed(1)]
    &&& n->Vert_panes@[0].1 is Fill
    &&& n->Vert_panes@[1].1 == (PaneNotation::Doc { label: DocLabel::KeyHints, style: None })
    &&& n->Vert_panes@[2].1 is Fill
}

fn bar_style() -> (r: Style)
    ensures
        r.color == Some((Base16Color::Base04, Priority::Low)),
        r.bold == Some((true, Priority::Low)),
{
    Style {
        color: Some((Base16Color::Base04, Priority::Low)),
        bold: Some((true, Priority::Low)),
        italic: None,
        underlined: None,
        cursor: None,
    }
}

fn padding() -> (r: PaneNotation)
    ensures
        r == (PaneNotation::Fill { ch: ' ', style: None }),
{
    PaneNotation::Fill { ch: ' ', style: None }
}

/// The editor's screen layout: the active document, with a menu bar and
/// the selection menu below it, then a divider and the key hints column.
pub fn make_pane_notation() -> (r: PaneNotation)
    ensures
        r is Horz,
        pane_sizes(r) == seq![
            PaneSize::Proportional(1),
            PaneSize::Fixed(1),
            PaneSize::Fixed(KEYHINTS_PANE_WIDTH),
        ],
        main_column(r->Horz_panes@[0].1),
        r->Horz_panes@[1].1 is Fill,
        hints_column(r->Horz_panes@[2].1),
{
    let divider = PaneNotation::Fill { ch: ' ', style: Some(bar_style()) };
    let keyhints = PaneNotation::Vert {
        panes: vec![
            (PaneSize::Proportional(1), padding()),
            (PaneSize::DynHeight, PaneNotation::Doc { label: DocLabel::KeyHints, style: None }),
            (PaneSize::Fixed(1), padding()),
        ],
        style: None,
    };
    let menu_bar = PaneNotation::Horz {
        panes: vec![
            (PaneSize::Fixed(1), padding()),
            (PaneSize::Proportional(1), PaneNotation::Doc { label: DocLabel::KeymapName, style: None }),
        ],
        style: Some(bar_style()),
    };
    let main_doc_and_menu = PaneNotation::Vert {
        panes: vec![
            (PaneSize::Proportional(1), PaneNotation::Doc { label: DocLabel::ActiveDoc, style: None }),
            (PaneSize::Fixed(1), menu_bar),
            (PaneSize::DynHeight, PaneNotation::Doc { label: DocLabel::SelectionMenu, style: None }),
        ],
        style: None,
    };
    let r = PaneNotation::Horz {
        panes: vec![
            (PaneSize::Proportional(1), main_doc_and_menu),
            (PaneSize::Fixed(1), divider),
            (PaneSize::Fixed(KEYHINTS_PANE_WIDTH), keyhints),
        ],
        style: None,
    };
    proof {
        let m = r->Horz_panes@[0].1;
        assert(pane_sizes(m) =~= seq![PaneSize::Proportional(1), PaneSize::Fixed(1), PaneSize::DynHeight]);
        assert(pane_sizes(m->Vert_panes@[1].1) =~= seq![PaneSize::Fixed(1), PaneSize::Proportional(1)]);
        let h = r->Horz_panes@[2].1;
        assert(pane_sizes(h) =~= seq![PaneSize::Proportional(1), PaneSize::DynHeight, PaneSize::Fixed(1)]);
        assert(pane_sizes(r) =~= seq![
            PaneSize::Proportional(1),
            PaneSize::Fixed(1),
            PaneSize::Fixed(KEYHINTS_PANE_WIDTH),
        ]);
    }
    r
}

/// The editor without its frontend: the document being edited and the
/// keymap layers. The event loop that reads keys and draws the screen
/// drives it.
pub struct Runtime<P> {
    pub engine: Engine,
    pub layers: LayerManager<P>,
    /// The documents, by name, each with its root.
    pub docs: Vec<(DocName, Node)>,
    /// The position in `docs` of the document shown.
    pub visible: Option<usize>,
    /// File extensions (without the dot) and the language of each.
    pub extensions: Vec<(String, String)>,
}

impl<P: Copy> Runtime<P> {
    pub open spec fn wf(&self) -> bool {
        self.engine.wf() && self.layers.wf()
    }

    pub fn new(engine: Engine) -> (r: Runtime<P>)
        requires
            engine.wf(),
        ensures
            r.wf(),
            r.engine == engine,
            r.layers.menu is None,
            r.docs@.len() == 0,
            r.visible is None,
            r.extensions@.len() == 0,
    {
        Runtime {
            engine,
            layers: LayerManager::new(),
            docs: Vec::new(),
            visible: None,
            extensions: Vec::new(),
        }
    }

    /// Register `language` for files with extension `ext` (no dot). An
    /// earlier registration of the same extension keeps precedence.
    pub fn register_extension(&mut self, ext: String, language: String)
        requires
            old(self).wf(),
        ensures
            final(self).wf(),
            final(self).engine == old(self).engine,
            final(self).docs == old(self).docs,
            final(self).visible == old(self).visible,
            final(self).extensions@ == old(self).extensions@.push((ext, language)),
    {
        self.extensions.push((ext, language));
    }

    /// Open the document at `path` whose tree, read and parsed by the
    /// caller, is `tree`: its language is found from the path's extension;
    /// it becomes the visible document, with the cursor at the start of
    /// its children (after it, for a leaf).
    pub fn open_doc(&mut self, path: String, tree: Node) -> (r: Result<(), DocError>)
        requires
            old(self).wf(),
        ensures
            final(self).wf(),
            r is Ok <==> (extension_of(path@) matches Some(e) && language_for(old(self).extensions@, e) is Some
                && old(self).engine.forest.nodes().contains_key(tree.0)),
            r == Err::<(), DocError>(DocError::NoExtension) <==> extension_of(path@) is None,
            r is Err ==> final(self).docs == old(self).docs && final(self).visible == old(self).visible
                && final(self).engine == old(self).engine,
            r is Ok ==> final(self).docs@ == old(self).docs@.push((DocName::File(path), tree))
                && final(self).visible == Some(old(self).docs@.len() as usize)
                && final(self).engine.forest == old(self).engine.forest
                && final(self).engine.loc.0 == match crate::location::spec_before_children(old(self).engine.forest, tree.0) {
                    Some(l) => l,
                    None => LocationInner::AfterNode(tree.0),
                },
            final(self).layers == old(self).layers,
            final(self).extensions == old(self).extensions,
    {
        let ext = match path_extension(&path) {
            Some(e) => e,
            None => {
                return Err(DocError::NoExtension);
            },
        };
        if lookup_extension(&self.extensions, &ext).is_none() {
            return Err(DocError::UnknownExtension);
        }
        if !tree.is_valid(&self.engine.forest) {
            return Err(DocError::InvalidTree);
        }
        let loc = match Location::before_children(tree, &self.engine.forest) {
            Some(l) => l,
            None => Location::after(tree, &self.engine.forest),
        };
        self.engine.loc = loc;
        let index = self.docs.len();
        self.docs.push((DocName::File(path), tree));
        self.visible = Some(index);
        Ok(())
    }


    pub fn register_layer(&mut self, layer: Layer<P>)
        requires
            old(self).wf(),
        ensures
            final(self).wf(),
            final(self).engine == old(self).engine,
            final(self).layers.layers@ == old(self).layers.layers@.push(layer),
            final(self).layers.active@ == old(self).layers.active@,
    {
        self.layers.register_layer(layer);
    }

    pub fn add_global_layer(&mut self, name: &String) -> (r: Result<(), crate::keymap::KeymapError>)
        requires
            old(self).wf(),
        ensures
            final(self).wf(),
            final(self).engine == old(self).engine,
            final(self).layers.layers == old(self).layers.layers,
            r is Err <==> forall|i: int|
                0 <= i < old(self).layers.layers@.len() ==> old(self).layers.layers@[i].name@ != name@,
            r is Err ==> final(self).layers.active@ == old(self).layers.active@,
            r is Ok ==> final(self).layers.active@.drop_last() == old(self).layers.active@
                && final(self).layers.layers@[final(self).layers.active@.last() as int].name@ == name@,
    {
        self.layers.add_global_layer(name)
    }

    pub fn remove_global_layer(&mut self, name: &String) -> (r: Result<(), crate::keymap::KeymapError>)
        requires
            old(self).wf(),
        ensures
            final(self).wf(),
            final(self).engine == old(self).engine,
            final(self).layers.layers == old(self).layers.layers,
            r is Err <==> forall|i: int|
                0 <= i < old(self).layers.active@.len() ==> old(self).layers.layers@[old(self).layers.active@[i] as int].name@ != name@,
            r is Err ==> final(self).layers.active@ == old(self).layers.active@,
            r is Ok ==> final(self).layers.active@.len() + 1 == old(self).layers.active@.len(),
    {
        self.layers.remove_global_layer(name)
    }

    /// Open a menu without bindings of its own. Fails while one is open.
    pub fn open_menu(&mut self, menu_name: String, description: String) -> (r: Result<(), crate::keymap::KeymapError>)
        requires
            old(self).wf(),
        ensures
            final(self).wf(),
            r is Err <==> old(self).layers.menu is Some,
            r is Err ==> final(self).layers == old(self).layers,
            final(self).engine == old(self).engine,
    {
        self.layers.open_menu(menu_name, description, None)
    }

    /// Open a menu with its own bindings. Fails while one is open.
    pub fn open_menu_with_keymap(&mut self, menu_name: String, description: String, keymap: Keymap<P>) -> (r: Result<(), crate::keymap::KeymapError>)
        requires
            old(self).wf(),
        ensures
            final(self).wf(),
            r is Err <==> old(self).layers.menu is Some,
            r is Err ==> final(self).layers == old(self).layers,
            final(self).engine == old(self).engine,
    {
        self.layers.open_menu(menu_name, description, Some(keymap))
    }

    /// Move the open menu's selection up. Fails without an open menu.
    pub fn menu_selection_up(&mut self) -> (r: Result<(), crate::keymap::KeymapError>)
        requires
            old(self).wf(),
        ensures
            final(self).wf(),
            final(self).engine == old(self).engine,
            r is Err <==> old(self).layers.menu is None,
    {
        self.layers.edit_menu_selection(MenuSelectionCmd::Up)
    }

    /// Move the open menu's selection down. Fails without an open menu.
    pub fn menu_selection_down(&mut self) -> (r: Result<(), crate::keymap::KeymapError>)
        requires
            old(self).wf(),
        ensures
            final(self).wf(),
            final(self).engine == old(self).engine,
            r is Err <==> old(self).layers.menu is None,
    {
        self.layers.edit_menu_selection(MenuSelectionCmd::Down)
    }

    /// Remove the last character of the open menu's filter. Fails without
    /// an open menu.
    pub fn menu_selection_backspace(&mut self) -> (r: Result<(), crate::keymap::KeymapError>)
        requires
            old(self).wf(),
        ensures
            final(self).wf(),
            final(self).engine == old(self).engine,
            r is Err <==> old(self).layers.menu is None,
    {
        self.layers.edit_menu_selection(MenuSelectionCmd::Backspace)
    }

    pub fn close_menu(&mut self)
        requires
            old(self).wf(),
        ensures
            final(self).wf(),
            final(self).layers.menu is None,
    {
        self.layers.close_menu();
    }

    pub fn undo(&mut self) -> (r: Result<(), EditError>)
        requires
            old(self).wf(),
        ensures
            final(self).wf(),
            final(self).layers == old(self).layers,
            old(self).engine.history.view().undo.len() == 0 && old(self).engine.group@.len() == 0
                ==> r == Err::<(), EditError>(EditError::NothingToUndo) && final(self).engine.forest
                == old(self).engine.forest && final(self).engine.loc == old(self).engine.loc,
            r is Ok && old(self).engine.group@.len() > 0 ==> final(self).engine.history.view().undo
                == old(self).engine.history.view().undo,
            r is Ok && old(self).engine.group@.len() == 0 ==> final(self).engine.history.view().undo
                == old(self).engine.history.view().undo.drop_last(),
            r is Ok && old(self).engine.group@.len() > 0 ==> final(self).engine.history.view().redo.len() == 1,
            r is Ok && old(self).engine.group@.len() == 0 ==> final(self).engine.history.view().redo.len()
                == old(self).engine.history.view().redo.len() + 1,
    {
        self.engine.undo()
    }

    pub fn redo(&mut self) -> (r: Result<(), EditError>)
        requires
            old(self).wf(),
        ensures
            final(self).wf(),
            final(self).layers == old(self).layers,
            old(self).engine.history.view().redo.len() == 0 || old(self).engine.group@.len() > 0
                ==> r == Err::<(), EditError>(EditError::NothingToRedo) && final(self).engine.forest
                == old(self).engine.forest && final(self).engine.loc == old(self).engine.loc,
            r is Ok ==> final(self).engine.history.view().redo == old(self).engine.history.view().redo.drop_last(),
    {
        self.engine.redo()
    }

    /// Insert `node` at the cursor.
    pub fn insert_node(&mut self, node: Node) -> (r: Result<(), EditError>)
        requires
            old(self).wf(),
        ensures
            final(self).wf(),
            final(self).layers == old(self).layers,
            r is Ok <==> old(self).engine.forest.nodes().contains_key(node.0) && can_insert(
                old(self).engine.forest,
                old(self).engine.loc.0,
                node.0,
            ),
            r is Err ==> final(self).engine.forest == old(self).engine.forest
                && final(self).engine.loc == old(self).engine.loc,
            r is Ok ==> exists|x: Result<Option<Node>, ()>|
                insert_done(
                    old(self).engine.forest,
                    old(self).engine.loc.0,
                    node.0,
                    final(self).engine.forest,
                    final(self).engine.loc.0,
                    x,
                ),
    {
        self.engine.execute_tree_ed(TreeEdCommand::Insert(node))
    }

    /// Copy the node left of the cursor to the clipboard, then delete it.
    pub fn cut(&mut self) -> (r: Result<(), EditError>)
        requires
            old(self).wf(),
        ensures
            final(self).wf(),
            final(self).layers == old(self).layers,
            r is Ok <==> (spec_left_node(old(self).engine.loc.0) matches Some(n) && parent_of(
                old(self).engine.forest,
                n,
            ) is Some),
            r is Ok ==> final(self).engine.clipboard@.len() == old(self).engine.clipboard@.len() + 1
                && final(self).engine.clipboard@.drop_last() == old(self).engine.clipboard@
                && !old(self).engine.forest.nodes().contains_key(final(self).engine.clipboard@.last().0)
                && crate::location::delete_done(
                old(self).engine.forest,
                old(self).engine.loc.0,
                true,
                final(self).engine.forest,
                Some(Node(spec_left_node(old(self).engine.loc.0)->0)),
            ),
    {
        self.engine.execute_clipboard(ClipboardCommand::Cut)
    }

    /// Handle a key press: look it up in the layers for the cursor's
    /// mode, insert a bound character, and close the undo group before a
    /// program runs in tree mode with no menu open. Returns what is left for
    /// the caller: a program to run, or a redisplay.
    pub fn handle_key(&mut self, key: Key) -> (r: Result<KeyAction<P>, EditError>)
        requires
            old(self).wf(),
        ensures
            final(self).wf(),
            final(self).layers == old(self).layers,
            r matches Ok(a) ==> a == spec_key_action(
                spec_mode_of(old(self).engine.loc.0),
                old(self).layers.menu is Some,
                old(self).layers.spec_lookup(spec_mode_of(old(self).engine.loc.0), cursor_ctx(old(self).engine.forest, old(self).engine.loc.0), key),
            ),
            !(old(self).layers.spec_lookup(spec_mode_of(old(self).engine.loc.0), cursor_ctx(old(self).engine.forest, old(self).engine.loc.0), key) matches Some(
                KeyLookupResult::InsertChar(_),
            )) ==> r is Ok,
            (old(self).layers.spec_lookup(spec_mode_of(old(self).engine.loc.0), cursor_ctx(old(self).engine.forest, old(self).engine.loc.0), key) is None
                || (old(self).layers.spec_lookup(spec_mode_of(old(self).engine.loc.0), cursor_ctx(old(self).engine.forest, old(self).engine.loc.0), key) matches Some(
                KeyLookupResult::Redisplay,
            ))) ==> final(self).engine == old(self).engine,
            r matches Ok(KeyAction::RunProg { prog: _, end_undo_group: e }) ==> (e ==> final(self).engine.group@.len() == 0 && final(self).engine.forest == old(self).engine.forest
                && final(self).engine.loc == old(self).engine.loc
                && (old(self).engine.group@.len() > 0 ==> final(self).engine.history.view().undo.drop_last() == old(self).engine.history.view().undo
                    && final(self).engine.history.view().undo.last()@ == old(self).engine.group@
                    && final(self).engine.history.view().redo.len() == 0)
                && (old(self).engine.group@.len() == 0 ==> final(self).engine.history == old(self).engine.history)) && (!e
                ==> final(self).engine == old(self).engine),
            old(self).layers.spec_lookup(spec_mode_of(old(self).engine.loc.0), cursor_ctx(old(self).engine.forest, old(self).engine.loc.0), key) matches Some(
                KeyLookupResult::InsertChar(c),
            ) ==> (old(self).engine.loc.0 matches LocationInner::InText(n, i) ==> ((r is Ok <==> i
                < usize::MAX) && (r is Ok ==> text_changed(
                old(self).engine.forest,
                final(self).engine.forest,
                n,
                leaf_text(old(self).engine.forest, n).insert(i as int, c),
            ) && final(self).engine.loc.0 == LocationInner::InText(n, (i + 1) as usize)))),
            (old(self).layers.spec_lookup(spec_mode_of(old(self).engine.loc.0), cursor_ctx(old(self).engine.forest, old(self).engine.loc.0), key) matches Some(
                KeyLookupResult::InsertChar(_),
            )) && !(old(self).engine.loc.0 is InText) ==> r is Err,
    {
        let mode = self.engine.loc.mode();
        let ctx = cursor_context(&self.engine.forest, self.engine.loc);
        let found = self.layers.lookup_key(mode, &ctx, key);
        let action = key_action(mode, self.layers.has_open_menu(), found);
        match action {
            KeyAction::RunProg { prog: _, end_undo_group } => {
                if end_undo_group {
                    self.engine.end_undo_group();
                }
            },
            KeyAction::InsertChar(ch) => {
                self.engine.execute_text_ed(TextEdCommand::Insert(ch))?;
            },
            _ => {},
        }
        Ok(action)
    }
}

/// How a filter sees node `n`.
pub open spec fn arity_kind(f: Forest, n: Index) -> ArityKind {
    if is_text(f, n) {
        ArityKind::Texty
    } else if f.nodes()[n].fixed {
        ArityKind::Fixed
    } else {
        ArityKind::Listy
    }
}

/// The context that filters are tested against at `l`: the node on the
/// right of the cursor, else its parent; `None` when there is neither.
pub open spec fn cursor_ctx(f: Forest, l: LocationInner) -> Option<FilterContext> {
    let node = match spec_right_node(f, l) {
        Some(n) => Some(n),
        None => spec_parent_node(f, l),
    };
    match node {
        None => None,
        Some(n) => Some(
            FilterContext {
                construct: f.nodes()[n].data,
                self_arity: arity_kind(f, n),
                parent_arity: match parent_of(f, n) {
                    Some(p) => Some(arity_kind(f, p)),
                    None => None,
                },
            },
        ),
    }
}

fn node_arity(n: Node, f: &Forest) -> (r: ArityKind)
    requires
        f.nodes().contains_key(n.0),
    ensures
        r == arity_kind(*f, n.0),
{
    if n.is_leaf(f) {
        ArityKind::Texty
    } else if n.is_fixed(f) {
        ArityKind::Fixed
    } else {
        ArityKind::Listy
    }
}

/// The filter context at the cursor.
pub fn cursor_context(f: &Forest, l: Location) -> (r: Option<FilterContext>)
    requires
        f.wf(),
        is_normal(*f, l.0),
    ensures
        r == cursor_ctx(*f, l.0),
{
    let node = match l.right_node(f) {
        Some(n) => Some(n),
        None => l.parent_node(f),
    };
    match node {
        None => None,
        Some(n) => {
            let parent_arity = match n.parent(f) {
                Some(p) => {
                    proof {
                        crate::forest::lemma_sibling_position(f, n.0);
                    }
                    Some(node_arity(p, f))
                },
                None => None,
            };
            Some(
                FilterContext {
                    construct: n.data(f).clone(),
                    self_arity: node_arity(n, f),
                    parent_arity,
                },
            )
        },
    }
}

pub open spec fn spec_mode_of(l: crate::location::LocationInner) -> Mode {
    crate::location::spec_mode(l)
}

} // verus!
