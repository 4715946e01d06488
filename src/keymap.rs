use vstd::prelude::*;

use crate::forest::{kids, Forest, Node, NodeChildren};
use generational_arena::Index;
use crate::location::Mode;
use crate::runtime::KeyLookupResult;

verus! {

/// A key press: a character with modifiers.
#[derive(Clone, Copy, Debug, PartialEq, Eq, Structural)]
pub struct Key {
    pub ch: char,
    pub ctrl: bool,
    pub alt: bool,
}

/// The shape of a node's children, as a filter sees it.
#[derive(Clone, Copy, Debug, PartialEq, Eq, Structural)]
pub enum ArityKind {
    Texty,
    Fixed,
    Listy,
}

/// What a filter is tested against: the node at the cursor (the one on
/// its right, else its parent).
#[derive(Clone, Debug)]
pub struct FilterContext {
    /// The node's construct name.
    pub construct: String,
    pub self_arity: ArityKind,
    pub parent_arity: Option<ArityKind>,
}

/// A condition on the node at the cursor for a binding to apply in tree
/// mode; each field that is set must match.
#[derive(Clone, Debug)]
pub struct Filter {
    pub construct: Option<String>,
    pub self_arity: Option<ArityKind>,
    pub parent_arity: Option<ArityKind>,
}

/// One binding: a key, what it does, and when it applies in tree mode.
pub struct Binding<P> {
    pub key: Key,
    pub result: KeyLookupResult<P>,
    pub filter: Option<Filter>,
}

/// Key bindings; the first binding of a key that applies counts.
pub struct Keymap<P> {
    pub bindings: Vec<Binding<P>>,
}

/// A filter lets a binding apply in this context: no filter always does; a
/// filter needs a context whose fields match every field it sets.
pub open spec fn passes(filter: Option<Filter>, ctx: Option<FilterContext>) -> bool {
    match filter {
        None => true,
        Some(f) => match ctx {
            None => false,
            Some(c) => {
                &&& f.construct matches Some(n) ==> n@ == c.construct@
                &&& f.self_arity matches Some(a) ==> a == c.self_arity
                &&& f.parent_arity is Some ==> f.parent_arity == c.parent_arity
            },
        },
    }
}

fn filter_passes(filter: &Option<Filter>, ctx: &Option<FilterContext>) -> (r: bool)
    ensures
        r == passes(*filter, *ctx),
{
    match filter {
        None => true,
        Some(f) => match ctx {
            None => false,
            Some(c) => {
                let construct_ok = match &f.construct {
                    Some(n) => *n == c.construct,
                    None => true,
                };
                let self_ok = match f.self_arity {
                    Some(a) => a == c.self_arity,
                    None => true,
                };
                let parent_ok = match f.parent_arity {
                    Some(a) => match c.parent_arity {
                        Some(b) => a == b,
                        None => false,
                    },
                    None => true,
                };
                construct_ok && self_ok && parent_ok
            },
        },
    }
}

/// A named bundle of bindings for tree mode and for text mode.
pub struct Layer<P> {
    pub name: String,
    pub tree_keymap: Keymap<P>,
    pub text_keymap: Keymap<P>,
}

/// An open menu: its name, what it is for, and its own bindings.
pub struct Menu<P> {
    pub name: String,
    pub description: String,
    pub keymap: Option<Keymap<P>>,
    /// The entries to choose from.
    pub candidates: Vec<String>,
    /// What has been typed: only candidates that start with it are shown.
    pub filter: Vec<char>,
    /// The position of the chosen entry among those shown.
    pub selected: usize,
}

/// A command on an open menu's selection.
#[derive(Clone, Copy, Debug, PartialEq, Eq, Structural)]
pub enum MenuSelectionCmd {
    Up,
    Down,
    /// Remove the last character of the filter.
    Backspace,
    /// Add a character to the filter.
    Insert(char),
}

/// `c` starts with `f`.
pub open spec fn is_prefix(f: Seq<char>, c: Seq<char>) -> bool {
    f.len() <= c.len() && c.subrange(0, f.len() as int) == f
}

/// The candidates shown under filter `f`, in order.
pub open spec fn visible(cands: Seq<String>, f: Seq<char>) -> Seq<Seq<char>>
    decreases cands.len(),
{
    if cands.len() == 0 {
        Seq::empty()
    } else {
        let rest = visible(cands.drop_last(), f);
        if is_prefix(f, cands.last()@) {
            rest.push(cands.last()@)
        } else {
            rest
        }
    }
}

fn has_prefix(c: &String, f: &Vec<char>) -> (r: bool)
    ensures
        r == is_prefix(f@, c@),
{
    let s = c.as_str();
    let n = s.unicode_len();
    if f.len() > n {
        return false;
    }
    let mut i: usize = 0;
    while i < f.len()
        invariant
            0 <= i <= f.len() <= n,
            n == c@.len(),
            s@ == c@,
            c@.subrange(0, i as int) == f@.subrange(0, i as int),
        decreases f.len() - i,
    {
        if s.get_char(i) != f[i] {
            proof {
                assert(c@.subrange(0, f@.len() as int)[i as int] != f@[i as int]);
            }
            return false;
        }
        proof {
            assert(c@.subrange(0, i + 1) =~= f@.subrange(0, i + 1));
        }
        i = i + 1;
    }
    proof {
        assert(f@.subrange(0, f@.len() as int) =~= f@);
    }
    true
}

/// How many candidates are shown, and which candidate is shown at
/// position `sel` (its index among all candidates), if any.
fn find_visible(cands: &Vec<String>, f: &Vec<char>, sel: usize) -> (r: (usize, Option<usize>))
    ensures
        r.0 == visible(cands@, f@).len(),
        r.1 is Some <==> sel < visible(cands@, f@).len(),
        r.1 matches Some(j) ==> j < cands@.len() && cands@[j as int]@ == visible(cands@, f@)[sel as int],
{
    let mut count: usize = 0;
    let mut found: Option<usize> = None;
    let mut i: usize = 0;
    while i < cands.len()
        invariant
            0 <= i <= cands.len(),
            count == visible(cands@.take(i as int), f@).len(),
            count <= i,
            found is Some <==> sel < count,
            found matches Some(j) ==> j < i && cands@[j as int]@ == visible(cands@.take(i as int), f@)[sel as int],
        decreases cands.len() - i,
    {
        proof {
            assert(cands@.take(i + 1).drop_last() =~= cands@.take(i as int));
            assert(cands@.take(i + 1).last() == cands@[i as int]);
        }
        if has_prefix(&cands[i], f) {
            if count == sel {
                found = Some(i);
            }
            count = count + 1;
        }
        i = i + 1;
    }
    proof {
        assert(cands@.take(cands@.len() as int) =~= cands@);
    }
    (count, found)
}


/// What a layer lookup can fail with.
#[derive(Clone, Copy, Debug, PartialEq, Eq, Structural)]
pub enum KeymapError {
    UnknownLayer,
    MenuAlreadyOpen,
    NoOpenMenu,
}

pub open spec fn mode_bindings<P>(l: Layer<P>, mode: Mode) -> Seq<Binding<P>> {
    match mode {
        Mode::Tree => l.tree_keymap.bindings@,
        Mode::Text => l.text_keymap.bindings@,
    }
}

/// Filters apply in tree mode only.
pub open spec fn applies<P>(b: Binding<P>, mode: Mode, ctx: Option<FilterContext>) -> bool {
    mode == Mode::Text || passes(b.filter, ctx)
}

/// The binding of `key` in the active layers `active` (indices into
/// `layers`), the last pushed first.
pub open spec fn layers_binding<P>(
    layers: Seq<Layer<P>>,
    active: Seq<usize>,
    mode: Mode,
    ctx: Option<FilterContext>,
    key: Key,
) -> Option<KeyLookupResult<P>>
    decreases active.len(),
{
    if active.len() == 0 {
        None
    } else {
        match mode_binding(mode_bindings(layers[active.last() as int], mode), mode, ctx, key) {
            Some(r) => Some(r),
            None => layers_binding(layers, active.drop_last(), mode, ctx, key),
        }
    }
}

/// In text mode every binding applies; in tree mode, those whose filter
/// passes.
pub open spec fn mode_binding<P>(b: Seq<Binding<P>>, mode: Mode, ctx: Option<FilterContext>, key: Key) -> Option<KeyLookupResult<P>>
    decreases b.len(),
{
    if b.len() == 0 {
        None
    } else if b[0].key == key && applies(b[0], mode, ctx) {
        Some(b[0].result)
    } else {
        mode_binding(b.drop_first(), mode, ctx, key)
    }
}

fn keymap_lookup<P: Copy>(km: &Keymap<P>, mode: Mode, ctx: &Option<FilterContext>, key: Key) -> (r: Option<KeyLookupResult<P>>)
    ensures
        r == mode_binding(km.bindings@, mode, *ctx, key),
{
    let mut i: usize = 0;
    proof {
        assert(km.bindings@.subrange(0, km.bindings@.len() as int) =~= km.bindings@);
    }
    while i < km.bindings.len()
        invariant
            0 <= i <= km.bindings.len(),
            mode_binding(km.bindings@, mode, *ctx, key) == mode_binding(km.bindings@.subrange(i as int, km.bindings@.len() as int), mode, *ctx, key),
        decreases km.bindings.len() - i,
    {
        proof {
            let rest = km.bindings@.subrange(i as int, km.bindings@.len() as int);
            assert(rest.drop_first() =~= km.bindings@.subrange(i + 1, km.bindings@.len() as int));
        }
        if km.bindings[i].key == key && (mode == Mode::Text || filter_passes(&km.bindings[i].filter, ctx)) {
            return Some(km.bindings[i].result);
        }
        i = i + 1;
    }
    proof {
        assert(km.bindings@.subrange(i as int, km.bindings@.len() as int).len() == 0);
    }
    None
}

proof fn lemma_mode_binding_key<P>(b: Seq<Binding<P>>, mode: Mode, ctx: Option<FilterContext>, key: Key)
    requires
        mode_binding(b, mode, ctx, key) is Some,
    ensures
        exists|j: int| 0 <= j < b.len() && b[j].key == key,
    decreases b.len(),
{
    if b[0].key == key && applies(b[0], mode, ctx) {
        assert(b[0].key == key);
    } else {
        lemma_mode_binding_key(b.drop_first(), mode, ctx, key);
        let j = choose|j: int| 0 <= j < b.drop_first().len() && b.drop_first()[j].key == key;
        assert(b[j + 1].key == key);
    }
}

proof fn lemma_layers_binding_key<P>(
    layers: Seq<Layer<P>>,
    active: Seq<usize>,
    mode: Mode,
    ctx: Option<FilterContext>,
    key: Key,
)
    requires
        layers_binding(layers, active, mode, ctx, key) is Some,
    ensures
        exists|a: int, j: int|
            0 <= a < active.len() && 0 <= j < mode_bindings(layers[active[a] as int], mode).len()
                && mode_bindings(layers[active[a] as int], mode)[j].key == key,
    decreases active.len(),
{
    let last = active.len() - 1;
    if mode_binding(mode_bindings(layers[active.last() as int], mode), mode, ctx, key) is Some {
        lemma_mode_binding_key(mode_bindings(layers[active.last() as int], mode), mode, ctx, key);
        let j = choose|j: int|
            0 <= j < mode_bindings(layers[active.last() as int], mode).len() && mode_bindings(
                layers[active.last() as int],
                mode,
            )[j].key == key;
        assert(active[last] == active.last());
    } else {
        lemma_layers_binding_key(layers, active.drop_last(), mode, ctx, key);
        let (a, j) = choose|a: int, j: int|
            0 <= a < active.drop_last().len() && 0 <= j < mode_bindings(
                layers[active.drop_last()[a] as int],
                mode,
            ).len() && mode_bindings(layers[active.drop_last()[a] as int], mode)[j].key == key;
        assert(active[a] == active.drop_last()[a]);
    }
}

/// Add the keys of `b` to `keys`.
fn push_keys<P>(keys: &mut Vec<Key>, b: &Vec<Binding<P>>)
    ensures
        final(keys)@.len() >= old(keys)@.len(),
        forall|q: int| 0 <= q < old(keys)@.len() ==> final(keys)@[q] == old(keys)@[q],
        forall|j: int| 0 <= j < b@.len() ==> final(keys)@.contains(#[trigger] b@[j].key),
{
    let mut j: usize = 0;
    while j < b.len()
        invariant
            0 <= j <= b.len(),
            keys@.len() == old(keys)@.len() + j,
            forall|q: int| 0 <= q < old(keys)@.len() ==> keys@[q] == old(keys)@[q],
            forall|q: int| 0 <= q < j ==> keys@[old(keys)@.len() + q] == b@[q].key,
        decreases b.len() - j,
    {
        keys.push(b[j].key);
        j = j + 1;
    }
    proof {
        assert forall|q: int| 0 <= q < b@.len() implies keys@.contains(#[trigger] b@[q].key) by {
            assert(keys@[old(keys)@.len() + q] == b@[q].key);
        }
    }
}

/// The registered layers, which of them are active, and the open menu.
pub struct LayerManager<P> {
    pub layers: Vec<Layer<P>>,
    /// Indices into `layers`, in the order they were activated.
    pub active: Vec<usize>,
    pub menu: Option<Menu<P>>,
}

impl<P: Copy> LayerManager<P> {
    /// Every active index names a registered layer.
    pub open spec fn wf(&self) -> bool {
        forall|i: int| 0 <= i < self.active@.len() ==> (#[trigger] self.active@[i]) < self.layers@.len()
    }

    pub fn new() -> (r: LayerManager<P>)
        ensures
            r.wf(),
            r.layers@.len() == 0,
            r.active@.len() == 0,
            r.menu is None,
    {
        LayerManager { layers: Vec::new(), active: Vec::new(), menu: None }
    }

    /// Make a layer known, to be activated by name later.
    pub fn register_layer(&mut self, layer: Layer<P>)
        requires
            old(self).wf(),
        ensures
            final(self).wf(),
            final(self).layers@ == old(self).layers@.push(layer),
            final(self).active@ == old(self).active@,
    {
        self.layers.push(layer);
    }

    /// The index of the last registered layer called `name`.
    fn find_layer(&self, name: &String) -> (r: Option<usize>)
        ensures
            r matches Some(i) ==> i < self.layers@.len() && self.layers@[i as int].name@ == name@,
            r is None ==> forall|i: int| 0 <= i < self.layers@.len() ==> self.layers@[i].name@ != name@,
    {
        let mut i = self.layers.len();
        while i > 0
            invariant
                i <= self.layers@.len(),
                forall|k: int| i <= k < self.layers@.len() ==> self.layers@[k].name@ != name@,
            decreases i,
        {
            if self.layers[i - 1].name == *name {
                return Some(i - 1);
            }
            i = i - 1;
        }
        None
    }

    /// Activate the layer called `name`, on top of the others.
    pub fn add_global_layer(&mut self, name: &String) -> (r: Result<(), KeymapError>)
        requires
            old(self).wf(),
        ensures
            final(self).wf(),
            final(self).layers == old(self).layers,
            r is Err <==> forall|i: int| 0 <= i < old(self).layers@.len() ==> old(self).layers@[i].name@ != name@,
            r is Err ==> final(self).active@ == old(self).active@,
            r is Ok ==> final(self).active@.len() == old(self).active@.len() + 1 && final(self).active@.drop_last() == old(self).active@
                && final(self).layers@[final(self).active@.last() as int].name@ == name@,
    {
        match self.find_layer(name) {
            Some(i) => {
                let ghost before = self.active@;
                self.active.push(i);
                proof {
                    assert(self.active@.drop_last() =~= before);
                }
                Ok(())
            },
            None => Err(KeymapError::UnknownLayer),
        }
    }

    /// Deactivate the most recently activated layer called `name`.
    pub fn remove_global_layer(&mut self, name: &String) -> (r: Result<(), KeymapError>)
        requires
            old(self).wf(),
        ensures
            final(self).wf(),
            final(self).layers == old(self).layers,
            r is Err ==> final(self).active@ == old(self).active@,
            r is Ok ==> final(self).active@.len() + 1 == old(self).active@.len(),
            r is Err <==> forall|i: int|
                0 <= i < old(self).active@.len() ==> old(self).layers@[old(self).active@[i] as int].name@
                    != name@,
            r is Ok ==> exists|i: int|
                0 <= i < old(self).active@.len() && old(self).layers@[old(self).active@[i] as int].name@
                    == name@ && final(self).active@ == old(self).active@.remove(i),
    {
        let mut k = self.active.len();
        while k > 0
            invariant
                k <= self.active@.len(),
                self.active == old(self).active,
                self.layers == old(self).layers,
                self.wf(),
                forall|q: int|
                    k <= q < self.active@.len() ==> self.layers@[self.active@[q] as int].name@ != name@,
            decreases k,
        {
            if self.layers[self.active[k - 1]].name == *name {
                let ghost before = self.active@;
                self.active.remove(k - 1);
                proof {
                    assert(before[k - 1] < self.layers@.len());
                    assert(self.layers@[before[k - 1] as int].name@ == name@);
                }
                return Ok(());
            }
            k = k - 1;
        }
        Err(KeymapError::UnknownLayer)
    }

    /// Open a menu. Only one can be open at a time.
    pub fn open_menu(&mut self, name: String, description: String, keymap: Option<Keymap<P>>) -> (r: Result<(), KeymapError>)
        requires
            old(self).wf(),
        ensures
            final(self).wf(),
            final(self).layers == old(self).layers,
            final(self).active == old(self).active,
            r is Err <==> old(self).menu is Some,
            r is Err ==> *final(self) == *old(self),
            r is Ok ==> final(self).menu is Some,
    {
        if self.menu.is_some() {
            return Err(KeymapError::MenuAlreadyOpen);
        }
        self.menu = Some(
            Menu {
                name,
                description,
                keymap,
                candidates: Vec::new(),
                filter: Vec::new(),
                selected: 0,
            },
        );
        Ok(())
    }

    /// Give the open menu its entries; the filter and selection start over.
    pub fn set_menu_candidates(&mut self, candidates: Vec<String>) -> (r: Result<(), KeymapError>)
        requires
            old(self).wf(),
        ensures
            final(self).wf(),
            final(self).layers == old(self).layers,
            final(self).active == old(self).active,
            r is Err <==> old(self).menu is None,
            r is Ok ==> (final(self).menu matches Some(m) && m.candidates@ == candidates@
                && m.filter@.len() == 0 && m.selected == 0),
    {
        match &mut self.menu {
            Some(m) => {
                m.candidates = candidates;
                m.filter = Vec::new();
                m.selected = 0;
                Ok(())
            },
            None => Err(KeymapError::NoOpenMenu),
        }
    }

    /// Move the selection, or edit the filter (which resets the selection
    /// to the first entry shown). Up and Down stop at the ends.
    pub fn edit_menu_selection(&mut self, cmd: MenuSelectionCmd) -> (r: Result<(), KeymapError>)
        requires
            old(self).wf(),
        ensures
            final(self).wf(),
            final(self).layers == old(self).layers,
            final(self).active == old(self).active,
            r is Err <==> old(self).menu is None,
            r is Err ==> final(self).menu is None,
            r is Ok ==> (final(self).menu matches Some(m) && (old(self).menu matches Some(o) && ({
                let shown = visible(o.candidates@, o.filter@).len();
                &&& m.candidates@ == o.candidates@
                &&& match cmd {
                    MenuSelectionCmd::Up => m.filter@ == o.filter@ && m.selected == (if o.selected > 0 {
                        (o.selected - 1) as usize
                    } else {
                        o.selected
                    }),
                    MenuSelectionCmd::Down => m.filter@ == o.filter@ && m.selected == (if o.selected + 1
                        < shown {
                        (o.selected + 1) as usize
                    } else {
                        o.selected
                    }),
                    MenuSelectionCmd::Backspace => m.selected == 0 && m.filter@ == (if o.filter@.len()
                        > 0 {
                        o.filter@.drop_last()
                    } else {
                        o.filter@
                    }),
                    MenuSelectionCmd::Insert(c) => m.selected == 0 && m.filter@ == o.filter@.push(c),
                }
            }))),
    {
        match &mut self.menu {
            None => Err(KeymapError::NoOpenMenu),
            Some(m) => {
                match cmd {
                    MenuSelectionCmd::Up => {
                        if m.selected > 0 {
                            m.selected = m.selected - 1;
                        }
                    },
                    MenuSelectionCmd::Down => {
                        let (shown, _) = find_visible(&m.candidates, &m.filter, 0);
                        if m.selected < shown && m.selected + 1 < shown {
                            m.selected = m.selected + 1;
                        }
                    },
                    MenuSelectionCmd::Backspace => {
                        if m.filter.len() > 0 {
                            m.filter.pop();
                        }
                        m.selected = 0;
                    },
                    MenuSelectionCmd::Insert(c) => {
                        m.filter.push(c);
                        m.selected = 0;
                    },
                }
                Ok(())
            },
        }
    }

    /// The entry of the open menu that is selected, if any is shown there.
    pub fn selected_candidate(&self) -> (r: Option<&String>)
        ensures
            self.menu is None ==> r is None,
            self.menu matches Some(m) ==> (r is Some <==> m.selected < visible(m.candidates@, m.filter@).len()),
            self.menu matches Some(m) ==> (r matches Some(c) ==> c@ == visible(m.candidates@, m.filter@)[m.selected as int]),
    {
        match &self.menu {
            None => None,
            Some(m) => {
                let (_, found) = find_visible(&m.candidates, &m.filter, m.selected);
                match found {
                    Some(j) => Some(&m.candidates[j]),
                    None => None,
                }
            },
        }
    }

    /// Close the open menu, if any.
    pub fn close_menu(&mut self)
        requires
            old(self).wf(),
        ensures
            final(self).wf(),
            final(self).menu is None,
            final(self).layers == old(self).layers,
            final(self).active == old(self).active,
    {
        self.menu = None;
    }

    pub fn has_open_menu(&self) -> (r: bool)
        ensures
            r == self.menu is Some,
    {
        self.menu.is_some()
    }

    pub open spec fn spec_lookup(&self, mode: Mode, ctx: Option<FilterContext>, key: Key) -> Option<KeyLookupResult<P>> {
        match self.menu {
            Some(m) => match m.keymap {
                Some(km) => match mode_binding(km.bindings@, mode, ctx, key) {
                    Some(b) => Some(b),
                    None => layers_binding(self.layers@, self.active@, mode, ctx, key),
                },
                None => layers_binding(self.layers@, self.active@, mode, ctx, key),
            },
            None => layers_binding(self.layers@, self.active@, mode, ctx, key),
        }
    }

    /// The key hints for this mode and context: each key whose effective
    /// binding is a program, with that program, once each.
    pub fn key_hints(&self, mode: Mode, ctx: &Option<FilterContext>) -> (r: Vec<(Key, P)>)
        requires
            self.wf(),
        ensures
            forall|i: int|
                0 <= i < r@.len() ==> self.spec_lookup(mode, *ctx, (#[trigger] r@[i]).0) == Some(
                    KeyLookupResult::KeyProg(r@[i].1),
                ),
            forall|i: int, j: int| 0 <= i < j < r@.len() ==> r@[i].0 != r@[j].0,
            forall|k: Key, p: P|
                self.spec_lookup(mode, *ctx, k) == Some(KeyLookupResult::KeyProg(p)) ==> exists|i: int|
                    0 <= i < r@.len() && r@[i] == (k, p),
    {
        let mut keys: Vec<Key> = Vec::new();
        match &self.menu {
            Some(m) => match &m.keymap {
                Some(km) => push_keys(&mut keys, &km.bindings),
                None => {},
            },
            None => {},
        }
        let ghost menu_keys = keys@;
        let mut a: usize = 0;
        while a < self.active.len()
            invariant
                self.wf(),
                0 <= a <= self.active.len(),
                forall|q: int| 0 <= q < menu_keys.len() ==> keys@[q] == menu_keys[q],
                menu_keys.len() <= keys@.len(),
                forall|x: int, j: int|
                    0 <= x < a && 0 <= j < mode_bindings(self.layers@[self.active@[x] as int], mode).len()
                        ==> keys@.contains(#[trigger] mode_bindings(self.layers@[self.active@[x] as int], mode)[j].key),
            decreases self.active.len() - a,
        {
            let layer = &self.layers[self.active[a]];
            let ghost before = keys@;
            match mode {
                Mode::Tree => push_keys(&mut keys, &layer.tree_keymap.bindings),
                Mode::Text => push_keys(&mut keys, &layer.text_keymap.bindings),
            }
            proof {
                assert forall|x: int, j: int|
                    0 <= x < a + 1 && 0 <= j < mode_bindings(self.layers@[self.active@[x] as int], mode).len()
                        implies keys@.contains(#[trigger] mode_bindings(self.layers@[self.active@[x] as int], mode)[j].key) by {
                    if x < a {
                        let k = mode_bindings(self.layers@[self.active@[x] as int], mode)[j].key;
                        let q = choose|q: int| 0 <= q < before.len() && before[q] == k;
                        assert(keys@[q] == k);
                    }
                }
            }
            a = a + 1;
        }
        let mut out: Vec<(Key, P)> = Vec::new();
        let mut c: usize = 0;
        while c < keys.len()
            invariant
                self.wf(),
                0 <= c <= keys.len(),
                forall|i: int|
                    0 <= i < out@.len() ==> self.spec_lookup(mode, *ctx, (#[trigger] out@[i]).0) == Some(
                        KeyLookupResult::KeyProg(out@[i].1),
                    ),
                forall|i: int, j: int| 0 <= i < j < out@.len() ==> out@[i].0 != out@[j].0,
                forall|q: int, p: P|
                    0 <= q < c && self.spec_lookup(mode, *ctx, keys@[q]) == Some(KeyLookupResult::KeyProg(p))
                        ==> exists|i: int| 0 <= i < out@.len() && out@[i] == (keys@[q], p),
            decreases keys.len() - c,
        {
            let k = keys[c];
            let mut seen = false;
            let mut i: usize = 0;
            while i < out.len()
                invariant
                    0 <= i <= out.len(),
                    seen == exists|q: int| 0 <= q < i && out@[q].0 == k,
                decreases out.len() - i,
            {
                if out[i].0 == k {
                    seen = true;
                }
                i = i + 1;
            }
            if !seen {
                match self.lookup_key(mode, ctx, k) {
                    Some(KeyLookupResult::KeyProg(p)) => {
                        let ghost before = out@;
                        out.push((k, p));
                        proof {
                            assert forall|q: int, pp: P|
                                0 <= q < c + 1 && self.spec_lookup(mode, *ctx, keys@[q]) == Some(KeyLookupResult::KeyProg(pp))
                                    implies exists|i: int| 0 <= i < out@.len() && out@[i] == (keys@[q], pp) by {
                                if q < c {
                                    let i = choose|i: int| 0 <= i < before.len() && before[i] == (keys@[q], pp);
                                    assert(out@[i] == before[i]);
                                } else {
                                    assert(out@[before.len() as int] == (keys@[q], pp));
                                }
                            }
                        }
                    },
                    _ => {},
                }
            } else {
                proof {
                    let w = choose|q: int| 0 <= q < out@.len() && out@[q].0 == k;
                    assert forall|q: int, pp: P|
                        0 <= q < c + 1 && self.spec_lookup(mode, *ctx, keys@[q]) == Some(KeyLookupResult::KeyProg(pp))
                            implies exists|i: int| 0 <= i < out@.len() && out@[i] == (keys@[q], pp) by {
                        if q == c {
                            assert(out@[w] == (keys@[q], pp));
                        }
                    }
                }
            }
            c = c + 1;
        }
        proof {
            assert forall|k: Key, p: P|
                self.spec_lookup(mode, *ctx, k) == Some(KeyLookupResult::KeyProg(p)) implies exists|i: int|
                    0 <= i < out@.len() && out@[i] == (k, p) by {
                let in_menu = match self.menu {
                    Some(m) => match m.keymap {
                        Some(km) => mode_binding(km.bindings@, mode, *ctx, k) is Some,
                        None => false,
                    },
                    None => false,
                };
                if in_menu {
                    let km = self.menu->0.keymap->0;
                    lemma_mode_binding_key(km.bindings@, mode, *ctx, k);
                    let j = choose|j: int| 0 <= j < km.bindings@.len() && km.bindings@[j].key == k;
                    assert(menu_keys.contains(km.bindings@[j].key));
                    let q = choose|q: int| 0 <= q < menu_keys.len() && menu_keys[q] == k;
                    assert(keys@[q] == k);
                } else {
                    lemma_layers_binding_key(self.layers@, self.active@, mode, *ctx, k);
                    let (x, j) = choose|x: int, j: int|
                        0 <= x < self.active@.len() && 0 <= j < mode_bindings(self.layers@[self.active@[x] as int], mode).len()
                            && mode_bindings(self.layers@[self.active@[x] as int], mode)[j].key == k;
                    assert(keys@.contains(mode_bindings(self.layers@[self.active@[x] as int], mode)[j].key));
                    let q = choose|q: int| 0 <= q < keys@.len() && keys@[q] == k;
                }
            }
        }
        out
    }

    /// The binding of `key`: an open menu's own bindings first, then the
    /// active layers for this mode, the last activated first.
    pub fn lookup_key(&self, mode: Mode, ctx: &Option<FilterContext>, key: Key) -> (r: Option<KeyLookupResult<P>>)
        requires
            self.wf(),
        ensures
            r == self.spec_lookup(mode, *ctx, key),
    {
        match &self.menu {
            Some(m) => match &m.keymap {
                Some(km) => match keymap_lookup(km, mode, ctx, key) {
                    Some(b) => {
                        return Some(b);
                    },
                    None => {},
                },
                None => {},
            },
            None => {},
        }
        let mut k = self.active.len();
        proof {
            assert(self.active@.take(k as int) =~= self.active@);
        }
        while k > 0
            invariant
                k <= self.active@.len(),
                self.wf(),
                match self.menu {
                    Some(m) => match m.keymap {
                        Some(km) => mode_binding(km.bindings@, mode, *ctx, key) is None,
                        None => true,
                    },
                    None => true,
                },
                layers_binding(self.layers@, self.active@, mode, *ctx, key) == layers_binding(
                    self.layers@,
                    self.active@.take(k as int),
                    mode,
                    *ctx,
                    key,
                ),
            decreases k,
        {
            proof {
                assert(self.active@.take(k as int).drop_last() =~= self.active@.take(k - 1));
            }
            let layer = &self.layers[self.active[k - 1]];
            let found = match mode {
                Mode::Tree => keymap_lookup(&layer.tree_keymap, mode, ctx, key),
                Mode::Text => keymap_lookup(&layer.text_keymap, mode, ctx, key),
            };
            proof {
                assert(self.active@.take(k as int).last() == self.active@[k - 1]);
            }
            match found {
                Some(b) => {
                    return Some(b);
                },
                None => {},
            }
            k = k - 1;
        }
        None
    }
}

/// Child `i` of `doc` is a leaf with the `i`th hint: the key as data and
/// the program's name as text.
pub open spec fn hint_at(f: Forest, doc: Index, hints: Seq<(String, String)>, i: int) -> bool {
    let c = kids(f.nodes()[doc])[i];
    &&& f.nodes().contains_key(c)
    &&& c != doc
    &&& f.nodes()[c].data@ == hints[i].0@
    &&& f.nodes()[c].children == NodeChildren::Leaf(hints[i].1)
}

/// Build the key hints document: a new tree whose root (data
/// `keyhints`) has one leaf per hint, in order, with the key as its data
/// and the program's name as its text.
pub fn make_keyhint_doc(f: &mut Forest, hints: &Vec<(String, String)>) -> (r: Node)
    requires
        old(f).wf(),
    ensures
        final(f).wf(),
        !old(f).nodes().contains_key(r.0),
        final(f).nodes().contains_key(r.0),
        final(f).nodes()[r.0].parent is None,
        final(f).nodes()[r.0].children is Branch,
        kids(final(f).nodes()[r.0]).len() == hints@.len(),
        forall|i: int|
            0 <= i < hints@.len() ==> #[trigger] hint_at(*final(f), r.0, hints@, i),
        forall|x: Index|
            #[trigger] old(f).nodes().contains_key(x) ==> final(f).nodes().contains_key(x)
                && final(f).nodes()[x] == old(f).nodes()[x],
{
    let doc = f.new_branch("keyhints".to_owned());
    let ghost m0 = old(f).nodes();
    let mut i: usize = 0;
    while i < hints.len()
        invariant
            f.wf(),
            0 <= i <= hints.len(),
            !m0.contains_key(doc.0),
            f.nodes().contains_key(doc.0),
            f.nodes()[doc.0].parent is None,
            f.nodes()[doc.0].children is Branch,
            kids(f.nodes()[doc.0]).len() == i,
            forall|j: int| 0 <= j < i ==> #[trigger] hint_at(*f, doc.0, hints@, j),
            forall|x: Index|
                #[trigger] m0.contains_key(x) ==> f.nodes().contains_key(x) && f.nodes()[x] == m0[x],
        decreases hints.len() - i,
    {
        let ghost before = f.nodes();
        let ghost before_f = *f;
        let leaf = f.new_leaf(hints[i].0.clone(), hints[i].1.clone());
        proof {
            assert(f.spec_root(leaf.0) == leaf.0);
            assert(f.spec_root(doc.0) == doc.0);
        }
        let ok = doc.insert_child(f, i, leaf);
        proof {
            assert(ok);
            assert forall|j: int| 0 <= j < i + 1 implies #[trigger] hint_at(*f, doc.0, hints@, j) by {
                if j < i {
                    assert(hint_at(before_f, doc.0, hints@, j));
                    assert(kids(f.nodes()[doc.0])[j] == kids(before[doc.0])[j]);
                    assert(kids(before[doc.0])[j] != leaf.0);
                }
            }
        }
        i = i + 1;
    }
    doc
}

} // verus!
