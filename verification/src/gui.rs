//! The gui: a tree of widgets under a root, addressed by [`Id`].
//!
//! Widgets are kept in a table indexed by their id; each widget lists the ids of its children,
//! and the gui keeps, for every widget below the root, the path of ids from the root's child
//! down to the widget's parent.
use vstd::prelude::*;
use indexmap::IndexMap;
use crate::{Id, ROOT};
use crate::event::{Event, EventKind, FieldId, Capture, Field};
use crate::pointer::{PointerInput, pointer_events, pressed_after};
use crate::lens::{FieldLens, WritableLens, ToggleButtonStateLens, RadioButtonStateLens, TextFieldTextLens};
use crate::widget::{Widget, WidgetKind, Root, TextField, ToggleButton, Interactive, Select, DropdownButton, Container, opt_str};
use crate::collections::{
    path_entries, paths_new, paths_insert, paths_get, alias_entries, aliases_new,
    aliases_insert, aliases_get, no_paths, no_aliases, paths_remove,
};

pub mod frame;
pub mod lists;

verus! {

/// Ids are handed out below this bound: the table of widgets, indexed by id, holds one entry
/// more than the largest id handed out, and its length is a `usize`.
pub const ID_LIMIT: usize = usize::MAX;

/// The gui: the widget tree, the events collected since the last update, the widgets marked
/// for removal, and the aliases by which widgets can be named.
#[derive(Debug)]
pub struct Gui {
    /// `nodes[id]` holds the widget `id`, if it exists.
    nodes: Vec<Option<Widget>>,
    /// For every widget below the root: the ids of its ancestors below the root, from the top.
    paths: IndexMap<Id, Vec<Id>>,
    /// The last id handed out.
    id_cnt: usize,
    to_remove: Vec<Id>,
    /// Events collected outside update function, consumed when update is called.
    events: Vec<Event>,
    pub aliases: IndexMap<String, Id>,
}

impl Gui {
    // -----------------------------------------------------------------------------------------
    // The model
    // -----------------------------------------------------------------------------------------

    /// Whether the widget `id` exists.
    pub closed spec fn live(&self, id: Id) -> bool {
        id < self.nodes@.len() && self.nodes@[id as int] is Some
    }

    /// The widget `id` (meaningful where `live(id)`).
    pub closed spec fn widget(&self, id: Id) -> Widget {
        self.nodes@[id as int].unwrap()
    }

    /// What the widget `id` is.
    pub open spec fn kind(&self, id: Id) -> WidgetKind {
        self.widget(id).inner
    }

    /// The children of the widget `id`, in order.
    pub open spec fn children_of(&self, id: Id) -> Seq<Id> {
        self.widget(id).spec_children()
    }

    /// The paths the gui keeps.
    pub closed spec fn path_map(&self) -> Map<Id, Seq<Id>> {
        path_entries(self.paths)
    }

    /// Whether the gui keeps a path for `id`.
    pub open spec fn has_path(&self, id: Id) -> bool {
        self.path_map().contains_key(id)
    }

    /// The ancestors of `id` below the root, from the top.
    pub open spec fn path(&self, id: Id) -> Seq<Id> {
        self.path_map()[id]
    }

    /// The parent of the widget `id`.
    pub open spec fn parent_of(&self, id: Id) -> Id {
        if self.path(id).len() == 0 {
            ROOT
        } else {
            self.path(id).last()
        }
    }

    /// Whether `y` is `x` or lies below `x`.
    pub open spec fn in_subtree(&self, x: Id, y: Id) -> bool {
        y == x || (self.has_path(y) && (x == ROOT || self.path(y).contains(x)))
    }

    /// Whether ids are left for another widget of kind `k` and the children it starts with.
    pub open spec fn ids_left(&self, k: WidgetKind) -> bool {
        self.last_id() + initial_size(k) < ID_LIMIT
    }

    /// The size of the widget table.
    pub closed spec fn table_len(&self) -> nat {
        self.nodes@.len()
    }

    /// The last id handed out.
    pub closed spec fn last_id(&self) -> usize {
        self.id_cnt
    }

    /// The events collected and not yet returned by an update.
    pub closed spec fn pending(&self) -> Seq<Event> {
        self.events@
    }

    /// The widgets marked for removal.
    pub closed spec fn removal_queue(&self) -> Seq<Id> {
        self.to_remove@
    }

    /// The aliases: each name with the id it stands for.
    pub closed spec fn alias_map(&self) -> Map<Seq<char>, Id> {
        alias_entries(self.aliases)
    }

    /// The widget `id` sits below its parent, as its path says.
    pub open spec fn parent_ok(&self, id: Id) -> bool {
        let p = self.parent_of(id);
        &&& p < id
        &&& self.live(p)
        &&& self.children_of(p).contains(id)
        &&& self.path(id) == (if p == ROOT {
            Seq::<Id>::empty()
        } else {
            self.path(p).push(p)
        })
    }

    /// The children of `p` are distinct widgets whose parent is `p`.
    pub open spec fn children_ok(&self, p: Id) -> bool {
        &&& self.children_of(p).no_duplicates()
        &&& forall|i: int|
            0 <= i < self.children_of(p).len() ==> {
                let c = #[trigger] self.children_of(p)[i];
                &&& p < c
                &&& self.live(c)
                &&& self.parent_of(c) == p
            }
    }

    /// The tree is well formed: the root exists, every other widget has a path that leads to
    /// it through the children of its ancestors, and nothing else has a path.
    pub open spec fn wf(&self) -> bool {
        &&& ROOT <= self.last_id() < ID_LIMIT
        &&& self.table_len() == self.last_id() + 1
        &&& !self.live(0)
        &&& self.live(ROOT)
        &&& self.kind(ROOT) is Root
        &&& forall|id: Id| self.live(id) ==> id <= self.last_id()
        &&& forall|id: Id| self.live(id) ==> #[trigger] self.widget(id).spec_id() == id
        &&& forall|id: Id| #[trigger] self.has_path(id) <==> (self.live(id) && id != ROOT)
        &&& forall|id: Id| self.live(id) && id != ROOT ==> #[trigger] self.parent_ok(id)
        &&& forall|p: Id| #[trigger] self.live(p) ==> self.children_ok(p)
    }

    // -----------------------------------------------------------------------------------------
    // Construction
    // -----------------------------------------------------------------------------------------

    /// A gui that holds only the root widget.
    pub fn new() -> (r: Gui)
        ensures
            r.wf(),
            r.last_id() == ROOT,
            forall|id: Id| r.live(id) <==> id == ROOT,
            r.children_of(ROOT) == Seq::<Id>::empty(),
            r.pending() == Seq::<Event>::empty(),
            r.removal_queue() == Seq::<Id>::empty(),
            r.alias_map() == no_aliases(),
    {
        let mut nodes: Vec<Option<Widget>> = Vec::new();
        nodes.push(None);
        nodes.push(
            Some(
                Widget {
                    inner: WidgetKind::Root(Root),
                    children: Vec::new(),
                    inside: false,
                    pressed: false,
                    id: ROOT,
                },
            ),
        );
        let r = Gui {
            nodes,
            paths: paths_new(),
            id_cnt: ROOT,
            to_remove: Vec::new(),
            events: Vec::new(),
            aliases: aliases_new(),
        };
        assert(r.children_of(ROOT) =~= Seq::<Id>::empty());
        r
    }
}


impl Gui {
    /// `self` holds the same widgets, paths and aliases as `other` (events and the removal
    /// queue aside).
    pub open spec fn same_tree(&self, other: &Gui) -> bool {
        &&& self.same_widgets(other)
        &&& self.alias_map() == other.alias_map()
    }

    /// `self` holds the same widgets and paths as `other`.
    pub open spec fn same_widgets(&self, other: &Gui) -> bool {
        &&& self.table_len() == other.table_len()
        &&& forall|x: Id| #[trigger] self.live(x) == other.live(x)
        &&& forall|x: Id| #[trigger] self.widget(x) == other.widget(x)
        &&& self.path_map() == other.path_map()
        &&& self.last_id() == other.last_id()
    }

    /// A gui that holds the same widgets and paths as a well formed one is well formed.
    pub proof fn lemma_same_tree_wf(&self, other: &Gui)
        requires
            other.wf(),
            self.same_widgets(other),
        ensures
            self.wf(),
    {
        assert forall|id: Id| self.live(id) implies id <= self.last_id() by {
            assert(other.live(id));
        }
        assert forall|id: Id| self.live(id) implies #[trigger] self.widget(id).spec_id() == id by {
            assert(other.live(id));
            assert(other.widget(id).spec_id() == id);
        }
        assert forall|id: Id| #[trigger] self.has_path(id) <==> (self.live(id) && id != ROOT) by {
            assert(other.has_path(id) <==> (other.live(id) && id != ROOT));
        }
        assert forall|id: Id| self.live(id) && id != ROOT implies #[trigger] self.parent_ok(id) by {
            assert(other.live(id));
            assert(other.parent_ok(id));
            assert(self.live(other.parent_of(id)));
            assert(self.widget(other.parent_of(id)) == other.widget(other.parent_of(id)));
        }
        assert forall|p: Id| #[trigger] self.live(p) implies self.children_ok(p) by {
            assert(other.live(p));
            assert(other.children_ok(p));
            assert(self.widget(p) == other.widget(p));
            assert forall|i: int| 0 <= i < self.children_of(p).len() implies {
                let c = #[trigger] self.children_of(p)[i];
                &&& p < c
                &&& self.live(c)
                &&& self.parent_of(c) == p
            } by {
                let c = other.children_of(p)[i];
                assert(other.live(c));
            }
        }
    }

    /// `self` holds the same widgets, paths, events and removal queue as `other`.
    closed spec fn same_tree_but_aliases(&self, other: &Gui) -> bool {
        &&& self.nodes == other.nodes
        &&& self.paths == other.paths
        &&& self.id_cnt == other.id_cnt
        &&& self.events == other.events
        &&& self.to_remove == other.to_remove
    }

    /// Every widget other than `parent` is as it was, and every path is as it was.
    pub open spec fn unchanged_except(&self, old: &Gui, parent: Id) -> bool {
        &&& forall|x: Id| old.live(x) && x != parent ==> #[trigger] self.widget(x) == old.widget(x)
        &&& forall|x: Id| old.has_path(x) ==> #[trigger] self.path(x) == old.path(x)
    }

    /// Adds a widget holding `inner`, without children, as the last child of `parent`, with the
    /// next id; announces it with a `New` event.
    fn insert_node(&mut self, parent: Id, inner: WidgetKind) -> (id: Id)
        requires
            old(self).wf(),
            old(self).live(parent),
            old(self).last_id() + 1 < ID_LIMIT,
        ensures
            final(self).wf(),
            id == old(self).last_id() + 1,
            final(self).last_id() == id,
            forall|x: Id| final(self).live(x) <==> (old(self).live(x) || x == id),
            final(self).kind(id) == inner,
            final(self).children_of(id) == Seq::<Id>::empty(),
            !final(self).widget(id).inside,
            !final(self).widget(id).pressed,
            final(self).parent_of(id) == parent,
            final(self).kind(parent) == old(self).kind(parent),
            final(self).children_of(parent) == old(self).children_of(parent).push(id),
            final(self).widget(parent).inside == old(self).widget(parent).inside,
            final(self).widget(parent).pressed == old(self).widget(parent).pressed,
            final(self).unchanged_except(old(self), parent),
            final(self).pending() == old(self).pending().push(Event { id, kind: EventKind::New }),
            final(self).removal_queue() == old(self).removal_queue(),
            final(self).alias_map() == old(self).alias_map(),
    {
        let ghost g0 = *self;
        let id = self.id_cnt + 1;
        self.id_cnt = id;
        self.events.push(Event::new(id, EventKind::New));
        let path: Vec<Id> = if parent == ROOT {
            Vec::new()
        } else {
            assert(g0.has_path(parent));
            let mut p = paths_get(&self.paths, parent).unwrap().clone();
            assert(p@ =~= g0.path(parent));
            p.push(parent);
            p
        };
        paths_insert(&mut self.paths, id, path);
        self.nodes.push(
            Some(Widget { inner, children: Vec::new(), inside: false, pressed: false, id }),
        );
        let mut slot: Option<Widget> = None;
        self.nodes.set_and_swap(parent, &mut slot);
        let mut pw = slot.unwrap();
        pw.children.push(id);
        self.nodes.set(parent, Some(pw));
        proof {
            let g = *self;
            assert(g.table_len() == g.last_id() + 1);
            assert forall|x: Id| g.live(x) <==> (g0.live(x) || x == id) by {}
            assert forall|x: Id| g0.live(x) && x != parent implies #[trigger] g.widget(x) == g0.widget(x) by {}
            assert forall|x: Id| g0.has_path(x) implies #[trigger] g.path(x) == g0.path(x) by {}
            assert(g.children_of(parent) =~= g0.children_of(parent).push(id));
            assert(g.children_of(id) =~= Seq::<Id>::empty());
            assert(g.parent_of(id) == parent);
            assert forall|x: Id| g.live(x) implies #[trigger] g.widget(x).spec_id() == x by {
                if x != id {
                    assert(g0.live(x));
                    assert(g0.widget(x).spec_id() == x);
                }
            }
            assert forall|x: Id| #[trigger] g.has_path(x) <==> (g.live(x) && x != ROOT) by {
                assert(g0.has_path(x) <==> (g0.live(x) && x != ROOT));
                assert(g.path_map() == g0.path_map().insert(id, g.path(id)));
            }
            assert forall|x: Id| g.live(x) && x != ROOT implies #[trigger] g.parent_ok(x) by {
                if x != id {
                    assert(g0.parent_ok(x));
                    let p = g0.parent_of(x);
                    assert(g.parent_of(x) == p);
                    if p == parent {
                        assert(g.children_of(p)[g0.children_of(p).index_of(x)] == x);
                    } else {
                        assert(g.children_of(p) == g0.children_of(p));
                    }
                } else {
                    assert(g.children_of(parent)[g0.children_of(parent).len() as int] == id);
                    if parent != ROOT {
                        assert(g0.parent_ok(parent));
                    }
                }
            }
            assert forall|p: Id| #[trigger] g.live(p) implies g.children_ok(p) by {
                if p == id {
                } else if p == parent {
                    assert(g0.children_ok(p));
                    assert forall|i: int| 0 <= i < g.children_of(p).len() implies {
                        let c = #[trigger] g.children_of(p)[i];
                        &&& p < c
                        &&& g.live(c)
                        &&& g.parent_of(c) == p
                    } by {
                        if i < g0.children_of(p).len() {
                            assert(g.children_of(p)[i] == g0.children_of(p)[i]);
                        }
                    }
                    assert(!g0.children_of(p).contains(id));
                } else {
                    assert(g0.children_ok(p));
                    assert(g.children_of(p) == g0.children_of(p));
                }
            }
        }
        id
    }
}


/// `k`, with the id of its main button set to `main` where it has one.
pub open spec fn with_main_button(k: WidgetKind, main: Id) -> WidgetKind {
    match k {
        WidgetKind::Select(s) => WidgetKind::Select(Select { main_button_id: main, ..s }),
        WidgetKind::DropdownButton(d) => WidgetKind::DropdownButton(
            DropdownButton { main_button_id: main, ..d },
        ),
        _ => k,
    }
}

/// The number of widgets that a widget of kind `k` starts with, itself included.
pub open spec fn initial_size(k: WidgetKind) -> nat {
    match k {
        WidgetKind::Button(_) | WidgetKind::ToggleButton(_) => 2,
        WidgetKind::Select(_) | WidgetKind::DropdownButton(_) => 3,
        _ => 1,
    }
}

/// Whether `k` is a text field showing no text.
pub open spec fn is_empty_text_field(k: WidgetKind) -> bool {
    k matches WidgetKind::TextField(t) && t.text@ == Seq::<char>::empty()
}

/// Whether `k` is a toggle button that is off.
pub open spec fn is_off_toggle(k: WidgetKind) -> bool {
    k matches WidgetKind::ToggleButton(t) && !t.state
}

impl Gui {
    /// The widget `id`, created from `k`, stands in the tree as its own initialization leaves
    /// it: buttons and toggle buttons with one empty text field child; selects and dropdown
    /// buttons with one toggle button child (their main button, with an empty text field
    /// child); other widgets without children. The ids are consecutive from `id`.
    pub open spec fn initialized(&self, id: Id, k: WidgetKind) -> bool {
        &&& self.live(id)
        &&& !self.widget(id).inside
        &&& !self.widget(id).pressed
        &&& match k {
            WidgetKind::Button(_) | WidgetKind::ToggleButton(_) => {
                &&& self.kind(id) == k
                &&& self.children_of(id) == seq![(id + 1) as Id]
                &&& self.live((id + 1) as Id)
                &&& is_empty_text_field(self.kind((id + 1) as Id))
                &&& self.children_of((id + 1) as Id) == Seq::<Id>::empty()
            },
            WidgetKind::Select(_) | WidgetKind::DropdownButton(_) => {
                &&& self.kind(id) == with_main_button(k, (id + 1) as Id)
                &&& self.children_of(id) == seq![(id + 1) as Id]
                &&& self.live((id + 1) as Id)
                &&& is_off_toggle(self.kind((id + 1) as Id))
                &&& self.children_of((id + 1) as Id) == seq![(id + 2) as Id]
                &&& self.live((id + 2) as Id)
                &&& is_empty_text_field(self.kind((id + 2) as Id))
                &&& self.children_of((id + 2) as Id) == Seq::<Id>::empty()
            },
            _ => {
                &&& self.kind(id) == k
                &&& self.children_of(id) == Seq::<Id>::empty()
            },
        }
    }

    /// The events that announce a widget of kind `k` created with id `id`.
    pub open spec fn new_events(id: Id, k: WidgetKind) -> Seq<Event> {
        if initial_size(k) == 3 {
            seq![
                Event { id, kind: EventKind::New },
                Event { id: (id + 1) as Id, kind: EventKind::New },
                Event { id: (id + 2) as Id, kind: EventKind::New },
            ]
        } else if initial_size(k) == 2 {
            seq![Event { id, kind: EventKind::New }, Event { id: (id + 1) as Id, kind: EventKind::New }]
        } else {
            seq![Event { id, kind: EventKind::New }]
        }
    }

    /// Gives the new widget `id` the children its kind starts with (see `initialized`).
    fn init_node(&mut self, id: Id)
        requires
            old(self).wf(),
            old(self).live(id),
            id != ROOT,
            old(self).last_id() == id,
            old(self).children_of(id) == Seq::<Id>::empty(),
            !old(self).widget(id).inside,
            !old(self).widget(id).pressed,
            id + initial_size(old(self).kind(id)) - 1 < ID_LIMIT,
        ensures
            final(self).wf(),
            final(self).initialized(id, old(self).kind(id)),
            final(self).last_id() == id + initial_size(old(self).kind(id)) - 1,
            forall|x: Id| final(self).live(x) <==> (old(self).live(x) || (id < x <= final(self).last_id())),
            final(self).unchanged_except(old(self), id),
            forall|x: Id| id < x <= final(self).last_id() ==> final(self).in_subtree(id, x),
            final(self).path(id) == old(self).path(id),
            final(self).pending() == old(self).pending() + Gui::new_events(id, old(self).kind(id)).drop_first(),
            final(self).removal_queue() == old(self).removal_queue(),
            final(self).alias_map() == old(self).alias_map(),
    {
        let ghost g0 = *self;
        let kind_size: u8 = match &self.nodes[id] {
            Some(w) => match &w.inner {
                WidgetKind::Button(_) | WidgetKind::ToggleButton(_) => 2,
                WidgetKind::Select(_) | WidgetKind::DropdownButton(_) => 3,
                _ => 1,
            },
            None => 1,
        };
        assert(kind_size == initial_size(g0.kind(id)));
        if kind_size == 2 {
            let t = self.insert_node(id, WidgetKind::TextField(TextField::new(String::new())));
            proof {
                let g = *self;
                assert(g.children_of(id) =~= seq![t]);
                assert(g.children_of(t) =~= Seq::<Id>::empty());
                assert(g.pending() =~= g0.pending() + Gui::new_events(id, g0.kind(id)).drop_first());
                assert(g.in_subtree(id, t)) by {
                    assert(g.has_path(t));
                    if id != ROOT {
                        assert(g.path(t)[g.path(t).len() - 1] == id);
                    }
                }
            }
        } else if kind_size == 3 {
            let main = self.insert_node(id, WidgetKind::ToggleButton(ToggleButton::new()));
            let ghost g1 = *self;
            let t = self.insert_node(main, WidgetKind::TextField(TextField::new(String::new())));
            let ghost g2 = *self;
            let mut slot: Option<Widget> = None;
            self.nodes.set_and_swap(id, &mut slot);
            let w = slot.unwrap();
            let inner = match w.inner {
                WidgetKind::Select(s) => WidgetKind::Select(Select { main_button_id: main, ..s }),
                WidgetKind::DropdownButton(d) => WidgetKind::DropdownButton(
                    DropdownButton { main_button_id: main, ..d },
                ),
                other => other,
            };
            self.nodes.set(
                id,
                Some(
                    Widget {
                        inner,
                        children: w.children,
                        inside: w.inside,
                        pressed: w.pressed,
                        id: w.id,
                    },
                ),
            );
            proof {
                let g = *self;
                assert(g.table_len() == g2.table_len());
                assert(g.nodes@ =~= g2.nodes@.update(id as int, g.nodes@[id as int]));
                assert forall|x: Id| x != id implies #[trigger] g.live(x) == g2.live(x)
                    && (g2.live(x) ==> g.widget(x) == g2.widget(x)) by {}
                assert(g.live(id));
                assert(g.path_map() == g2.path_map());
                assert(g.children_of(id) == g2.children_of(id));
                assert(g2.children_of(id) =~= seq![main]);
                assert(g.children_of(main) =~= seq![t]);
                assert(g.children_of(t) =~= Seq::<Id>::empty());
                assert(g.kind(id) == with_main_button(g0.kind(id), main));
                assert(g.pending() =~= g0.pending() + Gui::new_events(id, g0.kind(id)).drop_first());
                assert forall|x: Id| g.live(x) implies #[trigger] g.widget(x).spec_id() == x by {
                    assert(g2.live(x));
                    assert(g2.widget(x).spec_id() == x);
                }
                assert forall|x: Id| #[trigger] g.has_path(x) <==> (g.live(x) && x != ROOT) by {
                    assert(g2.has_path(x) <==> (g2.live(x) && x != ROOT));
                }
                assert forall|x: Id| g.live(x) && x != ROOT implies #[trigger] g.parent_ok(x) by {
                    assert(g2.parent_ok(x));
                }
                assert forall|p: Id| #[trigger] g.live(p) implies g.children_ok(p) by {
                    assert(g2.children_ok(p));
                }
                assert(g1.has_path(main));
                assert(g.parent_ok(main));
                assert(g.parent_of(main) == id);
                assert(g.in_subtree(id, main)) by {
                    assert(g.path(main)[g.path(main).len() - 1] == id);
                }
                assert(g.in_subtree(id, t)) by {
                    assert(g2.parent_ok(t));
                    assert(g.path(t) == g.path(main).push(main));
                    assert(g.path(main)[g.path(main).len() - 1] == id);
                    assert(g.path(t)[g.path(main).len() - 1] == id);
                }
                assert forall|x: Id| g0.live(x) && x != id implies #[trigger] g.widget(x) == g0.widget(x) by {}
                assert forall|x: Id| g0.has_path(x) implies #[trigger] g.path(x) == g0.path(x) by {
                    assert(g1.path(x) == g0.path(x));
                    assert(g1.has_path(x));
                    assert(g2.path(x) == g1.path(x));
                }
            }
        } else {
            assert(g0.pending() + Gui::new_events(id, g0.kind(id)).drop_first() =~= g0.pending());
        }
    }
}


/// Something that names a widget of a gui: its id, or one of its aliases.
pub trait AsId {
    /// The id that `self` names in `gui`, if any.
    spec fn spec_resolve(&self, gui: &Gui) -> Option<Id>;

    fn resolve(&self, gui: &Gui) -> (r: Option<Id>)
        ensures
            r == self.spec_resolve(gui),
    ;
}

impl AsId for usize {
    open spec fn spec_resolve(&self, gui: &Gui) -> Option<Id> {
        Some(*self)
    }

    fn resolve(&self, _gui: &Gui) -> (r: Option<Id>) {
        Some(*self)
    }
}

impl AsId for String {
    open spec fn spec_resolve(&self, gui: &Gui) -> Option<Id> {
        gui.alias_of(self@)
    }

    fn resolve(&self, gui: &Gui) -> (r: Option<Id>) {
        gui.lookup_alias(self.as_str())
    }
}

impl<'a> AsId for &'a String {
    open spec fn spec_resolve(&self, gui: &Gui) -> Option<Id> {
        gui.alias_of((*self)@)
    }

    fn resolve(&self, gui: &Gui) -> (r: Option<Id>) {
        gui.lookup_alias((*self).as_str())
    }
}

impl<'a> AsId for &'a str {
    open spec fn spec_resolve(&self, gui: &Gui) -> Option<Id> {
        gui.alias_of((*self)@)
    }

    fn resolve(&self, gui: &Gui) -> (r: Option<Id>) {
        gui.lookup_alias(*self)
    }
}

impl Gui {
    /// The id that the alias `name` stands for, if any.
    pub open spec fn alias_of(&self, name: Seq<char>) -> Option<Id> {
        if self.alias_map().contains_key(name) {
            Some(self.alias_map()[name])
        } else {
            None
        }
    }

    /// The id that the alias `name` stands for, if any.
    pub fn lookup_alias(&self, name: &str) -> (r: Option<Id>)
        ensures
            r == self.alias_of(name@),
    {
        aliases_get(&self.aliases, name)
    }

    /// Whether the widget `id` exists.
    pub fn contains(&self, id: Id) -> (r: bool)
        ensures
            r == self.live(id),
    {
        id < self.nodes.len() && self.nodes[id].is_some()
    }

    /// Inserts a widget of kind `k` as the last child of `parent`, with its initial children;
    /// `None` where `parent` does not exist or the ids are used up.
    fn insert_widget(&mut self, parent: Id, k: WidgetKind) -> (r: Option<Id>)
        requires
            old(self).wf(),
        ensures
            final(self).wf(),
            r is None <==> (!old(self).live(parent) || !old(self).ids_left(k)),
            r is None ==> *final(self) == *old(self),
            r is Some ==> final(self).inserted(old(self), parent, r.unwrap(), k),
    {
        let size: usize = match &k {
            WidgetKind::Button(_) | WidgetKind::ToggleButton(_) => 2,
            WidgetKind::Select(_) | WidgetKind::DropdownButton(_) => 3,
            _ => 1,
        };
        if !self.contains(parent) || self.id_cnt >= ID_LIMIT - size {
            return None;
        }
        let ghost g0 = *self;
        let id = self.insert_node(parent, k);
        let ghost g1 = *self;
        self.init_node(id);
        proof {
            let g = *self;
            assert(g.children_of(parent) == g1.children_of(parent));
            assert forall|x: Id| g0.live(x) && x != parent implies #[trigger] g.widget(x) == g0.widget(x) by {
                assert(g1.widget(x) == g0.widget(x));
            }
            assert forall|x: Id| g0.has_path(x) implies #[trigger] g.path(x) == g0.path(x) by {
                assert(g1.path(x) == g0.path(x));
                assert(g1.has_path(x));
            }
            assert(g.pending() =~= g0.pending() + Gui::new_events(id, k));
            assert(g.widget(parent).inside == g1.widget(parent).inside);
        }
        Some(id)
    }

    /// `self` is `old` with the widget `id` of kind `k` inserted as the last child of
    /// `parent`, initialized as its kind says, announced by `New` events.
    pub open spec fn inserted(&self, old: &Gui, parent: Id, id: Id, k: WidgetKind) -> bool {
        &&& id == old.last_id() + 1
        &&& self.last_id() == old.last_id() + initial_size(k)
        &&& forall|x: Id| self.live(x) <==> (old.live(x) || (id <= x <= self.last_id()))
        &&& self.initialized(id, k)
        &&& self.parent_of(id) == parent
        &&& forall|x: Id| id <= x <= self.last_id() ==> self.in_subtree(id, x)
        &&& self.kind(parent) == old.kind(parent)
        &&& self.children_of(parent) == old.children_of(parent).push(id)
        &&& self.widget(parent).inside == old.widget(parent).inside
        &&& self.widget(parent).pressed == old.widget(parent).pressed
        &&& self.unchanged_except(old, parent)
        &&& self.pending() == old.pending() + Gui::new_events(id, k)
        &&& self.removal_queue() == old.removal_queue()
        &&& self.alias_map() == old.alias_map()
    }

    /// Inserts `widget` as the last child of the widget that `parent_id` names, with its
    /// initial children, and returns its id; returns None if widget referred to by parent_id
    /// does not exist (or the ids are used up).
    pub fn insert<I: AsId, W: Interactive>(&mut self, parent_id: I, widget: W) -> (r: Option<Id>)
        requires
            old(self).wf(),
        ensures
            final(self).wf(),
            r is None <==> (match parent_id.spec_resolve(old(self)) {
                Some(p) => !old(self).live(p) || !old(self).ids_left(widget.spec_kind()),
                None => true,
            }),
            r is None ==> *final(self) == *old(self),
            r is Some ==> final(self).inserted(
                old(self),
                parent_id.spec_resolve(old(self)).unwrap(),
                r.unwrap(),
                widget.spec_kind(),
            ),
    {
        match parent_id.resolve(self) {
            Some(p) => self.insert_widget(p, widget.into_kind()),
            None => None,
        }
    }

    /// Inserts `widget` as the last child of the root.
    pub fn insert_in_root<W: Interactive>(&mut self, widget: W) -> (r: Id)
        requires
            old(self).wf(),
            old(self).ids_left(widget.spec_kind()),
        ensures
            final(self).wf(),
            final(self).inserted(old(self), ROOT, r, widget.spec_kind()),
    {
        self.insert_widget(ROOT, widget.into_kind()).unwrap()
    }

    /// Inserts `widget` as the last child of the root, and lets `alias` name it.
    pub fn insert_in_root_with_alias<W: Interactive>(&mut self, widget: W, alias: String)
        requires
            old(self).wf(),
            old(self).ids_left(widget.spec_kind()),
        ensures
            final(self).wf(),
            ({
                let id = (old(self).last_id() + 1) as Id;
                &&& final(self).alias_map() == old(self).alias_map().insert(alias@, id)
                &&& forall|x: Id| final(self).live(x) <==> (old(self).live(x) || (id <= x <= final(self).last_id()))
                &&& final(self).initialized(id, widget.spec_kind())
                &&& final(self).parent_of(id) == ROOT
                &&& final(self).children_of(ROOT) == old(self).children_of(ROOT).push(id)
                &&& final(self).unchanged_except(old(self), ROOT)
                &&& final(self).pending() == old(self).pending() + Gui::new_events(id, widget.spec_kind())
                &&& final(self).removal_queue() == old(self).removal_queue()
            }),
    {
        let ghost g0 = *self;
        let id = self.id_cnt + 1;
        aliases_insert(&mut self.aliases, alias, id);
        proof {
            assert(self.same_tree_but_aliases(&g0));
            self.lemma_same_tree_wf(&g0);
        }
        let ghost g1 = *self;
        self.insert_widget(ROOT, widget.into_kind());
        proof {
            assert forall|x: Id| g1.live(x) && x != ROOT implies #[trigger] self.widget(x) == g0.widget(x) by {
                assert(g1.widget(x) == g0.widget(x));
            }
            assert forall|x: Id| g0.has_path(x) implies #[trigger] self.path(x) == g0.path(x) by {
                assert(g1.has_path(x));
            }
        }
    }

    /// The root widget.
    pub fn root(&self) -> (r: &Widget)
        requires
            self.wf(),
        ensures
            *r == self.widget(ROOT),
    {
        self.nodes[ROOT].as_ref().unwrap()
    }

    /// The widget that `id` names, or None if there is no such widget.
    pub fn try_get<I: AsId>(&self, id: I) -> (r: Option<&Widget>)
        requires
            self.wf(),
        ensures
            r is Some <==> (match id.spec_resolve(self) {
                Some(i) => self.live(i),
                None => false,
            }),
            r is Some ==> *r.unwrap() == self.widget(id.spec_resolve(self).unwrap()),
    {
        match id.resolve(self) {
            Some(i) => {
                if i == ROOT {
                    return Some(self.nodes[ROOT].as_ref().unwrap());
                }
                match paths_get(&self.paths, i) {
                    Some(_) => {
                        assert(self.has_path(i));
                        Some(self.nodes[i].as_ref().unwrap())
                    },
                    None => {
                        assert(!self.has_path(i));
                        None
                    },
                }
            },
            None => None,
        }
    }

    /// The widget that `id` names, which must exist.
    pub fn get<I: AsId>(&self, id: I) -> (r: &Widget)
        requires
            self.wf(),
            id.spec_resolve(self) is Some,
            self.live(id.spec_resolve(self).unwrap()),
        ensures
            *r == self.widget(id.spec_resolve(self).unwrap()),
    {
        self.try_get(id).unwrap()
    }

    /// `self` is `old` with the widget `id` replaced by `w`: every other widget, every path,
    /// alias, event and the removal queue are as they were.
    pub open spec fn widget_replaced(&self, old: &Gui, id: Id, w: Widget) -> bool {
        &&& self.widget(id) == w
        &&& self.table_len() == old.table_len()
        &&& forall|x: Id| #[trigger] self.live(x) == old.live(x)
        &&& forall|x: Id| x != id && old.live(x) ==> #[trigger] self.widget(x) == old.widget(x)
        &&& self.path_map() == old.path_map()
        &&& self.last_id() == old.last_id()
        &&& self.alias_map() == old.alias_map()
        &&& self.removal_queue() == old.removal_queue()
        &&& self.pending() == old.pending()
    }

    /// Replacing a widget by one with the same id and children (and, for the root, the root
    /// kind) keeps the gui well formed.
    pub proof fn lemma_widget_replaced_wf(&self, old: &Gui, id: Id, w: Widget)
        requires
            old.wf(),
            old.live(id),
            self.widget_replaced(old, id, w),
            w.spec_id() == id,
            w.spec_children() == old.children_of(id),
            id == ROOT ==> w.inner is Root,
        ensures
            self.wf(),
    {
        let g = *self;
        assert forall|x: Id| g.live(x) implies #[trigger] g.widget(x).spec_id() == x by {
            assert(old.live(x));
            assert(old.widget(x).spec_id() == x);
        }
        assert forall|x: Id| g.live(x) implies x <= g.last_id() by {
            assert(old.live(x));
        }
        assert forall|x: Id| #[trigger] g.has_path(x) <==> (g.live(x) && x != ROOT) by {
            assert(old.has_path(x) <==> (old.live(x) && x != ROOT));
        }
        assert forall|x: Id| g.live(x) && x != ROOT implies #[trigger] g.parent_ok(x) by {
            assert(old.parent_ok(x));
            let p = old.parent_of(x);
            assert(g.children_of(p) == old.children_of(p));
        }
        assert forall|p: Id| #[trigger] g.live(p) implies g.children_ok(p) by {
            assert(old.children_ok(p));
            assert(g.children_of(p) == old.children_of(p));
            assert forall|i: int| 0 <= i < g.children_of(p).len() implies {
                let c = #[trigger] g.children_of(p)[i];
                &&& p < c
                &&& g.live(c)
                &&& g.parent_of(c) == p
            } by {
                let c = old.children_of(p)[i];
                assert(old.live(c));
            }
        }
    }

    /// Whether `w`, put in the place of the widget `id`, keeps the tree as it is: it has the
    /// same id and children, and the root stays the root.
    pub open spec fn keeps_place(&self, id: Id, w: Widget) -> bool {
        &&& w.spec_id() == id
        &&& w.spec_children() == self.children_of(id)
        &&& (id == ROOT ==> w.inner is Root)
    }

    /// Replacing an existing widget by one that keeps its place keeps the gui well formed.
    pub proof fn lemma_any_replacement_wf(old: Gui, id: Id)
        requires
            old.wf(),
            old.live(id),
        ensures
            forall|g: Gui, w: Widget| #[trigger] g.widget_replaced(&old, id, w) && old.keeps_place(id, w) ==> g.wf(),
    {
        assert forall|g: Gui, w: Widget| #[trigger] g.widget_replaced(&old, id, w) && old.keeps_place(id, w) implies g.wf() by {
            g.lemma_widget_replaced_wf(&old, id, w);
        }
    }

    /// The widget that `id` names, to be changed in place, or None if there is no such widget.
    /// The gui then holds what the widget holds once the loan ends, and nothing else changes;
    /// it stays well formed where the widget keeps its place in the tree (`keeps_place`): its id
    /// and children are the gui's to change.
    pub fn try_get_mut<I: AsId>(&mut self, id: I) -> (r: Option<&mut Widget>)
        requires
            old(self).wf(),
        ensures
            r is Some <==> (match id.spec_resolve(old(self)) {
                Some(i) => old(self).live(i),
                None => false,
            }),
            r is None ==> *final(self) == *old(self),
            r is Some ==> *r.unwrap() == old(self).widget(id.spec_resolve(old(self)).unwrap()),
            r is Some ==> final(self).widget_replaced(
                old(self),
                id.spec_resolve(old(self)).unwrap(),
                *final(r.unwrap()),
            ),
            r is Some && old(self).keeps_place(id.spec_resolve(old(self)).unwrap(), *final(r.unwrap())) ==> final(self).wf(),
    {
        match id.resolve(self) {
            Some(i) => {
                if !self.contains(i) {
                    return None;
                }
                proof {
                    Gui::lemma_any_replacement_wf(*old(self), i);
                }
                self.nodes[i].as_mut()
            },
            None => None,
        }
    }

    /// The widget that `id` names, which must exist, to be changed in place (see
    /// `try_get_mut`).
    pub fn get_mut<I: AsId>(&mut self, id: I) -> (r: &mut Widget)
        requires
            old(self).wf(),
            id.spec_resolve(old(self)) is Some,
            old(self).live(id.spec_resolve(old(self)).unwrap()),
        ensures
            *r == old(self).widget(id.spec_resolve(old(self)).unwrap()),
            final(self).widget_replaced(old(self), id.spec_resolve(old(self)).unwrap(), *final(r)),
            old(self).keeps_place(id.spec_resolve(old(self)).unwrap(), *final(r)) ==> final(self).wf(),
    {
        self.try_get_mut(id).unwrap()
    }

    /// The parent of the widget `id` (the root for a child of the root), where `id` is a widget
    /// other than the root.
    pub fn try_parent(&self, id: Id) -> (r: Option<Id>)
        requires
            self.wf(),
        ensures
            r == (if self.has_path(id) {
                Some(self.parent_of(id))
            } else {
                None::<Id>
            }),
            r is Some <==> (self.live(id) && id != ROOT),
    {
        proof {
            assert(self.has_path(id) <==> (self.live(id) && id != ROOT));
        }
        match paths_get(&self.paths, id) {
            Some(path) => {
                if path.len() > 0 {
                    Some(path[path.len() - 1])
                } else {
                    Some(ROOT)
                }
            },
            None => None,
        }
    }

    /// The parent of the widget `id` (the root for a child of the root), which must be a widget
    /// other than the root.
    pub fn parent(&self, id: Id) -> (r: Id)
        requires
            self.wf(),
            self.has_path(id),
        ensures
            r == self.parent_of(id),
    {
        self.try_parent(id).unwrap()
    }

    /// Whether `i` and `j` name the same id (or both name none).
    pub fn id_eq<I: AsId, J: AsId>(&self, i: I, j: J) -> (r: bool)
        ensures
            r == (i.spec_resolve(self) == j.spec_resolve(self)),
    {
        match (i.resolve(self), j.resolve(self)) {
            (Some(a), Some(b)) => a == b,
            (None, None) => true,
            _ => false,
        }
    }

    /// Collects `event`, to be returned by the next update.
    pub fn push_event(&mut self, event: Event)
        ensures
            old(self).wf() ==> final(self).wf(),
            final(self).pending() == old(self).pending().push(event),
            final(self).same_tree(old(self)),
            final(self).removal_queue() == old(self).removal_queue(),
    {
        let ghost g0 = *self;
        self.events.push(event);
        proof {
            if g0.wf() {
                assert(self.same_widgets(&g0));
                self.lemma_same_tree_wf(&g0);
            }
        }
    }

    /// The events collected since the last update.
    pub fn events(&self) -> (r: &[Event])
        ensures
            r@ == self.pending(),
    {
        self.events.as_slice()
    }

    /// Marks the widget `id` for removal. It is reported `Removed` (with the widgets below it)
    /// by the update during which it is marked, and taken out of the tree at the start of the
    /// update after that.
    pub fn remove(&mut self, id: Id)
        ensures
            old(self).wf() ==> final(self).wf(),
            final(self).removal_queue() == old(self).removal_queue().push(id),
            final(self).same_tree(old(self)),
            final(self).pending() == old(self).pending(),
    {
        let ghost g0 = *self;
        self.to_remove.push(id);
        proof {
            if g0.wf() {
                assert(self.same_widgets(&g0));
                self.lemma_same_tree_wf(&g0);
            }
        }
    }
}


impl Gui {
    /// The children of an existing widget exist.
    pub proof fn lemma_children_live(&self, p: Id)
        requires
            self.wf(),
            self.live(p),
        ensures
            forall|i: int| 0 <= i < self.children_of(p).len() ==> self.live(#[trigger] self.children_of(p)[i]),
    {
        assert(self.children_ok(p));
    }

    /// The widget `id`, which must exist.
    pub fn widget_ref(&self, id: Id) -> (r: &Widget)
        requires
            self.live(id),
        ensures
            *r == self.widget(id),
    {
        self.nodes[id].as_ref().unwrap()
    }

    /// `self` is `old` with the field of widget `id` that `lens` reaches set to `v`: the field
    /// holds `v`, a `Change` event of that field is collected where the value differed, and
    /// nothing else changed.
    pub open spec fn field_put<L: WritableLens>(&self, old: &Gui, id: Id, lens: L, v: <L::Target as DeepView>::V) -> bool {
        let changed = lens.spec_read(old.widget(id)) != Some(v);
        &&& lens.spec_read(self.widget(id)) == Some(v)
        &&& (changed ==> lens.spec_written(old.widget(id), self.widget(id), v))
        &&& (!changed ==> self.widget(id) == old.widget(id))
        &&& self.children_of(id) == old.children_of(id)
        &&& self.widget(id).inside == old.widget(id).inside
        &&& self.widget(id).pressed == old.widget(id).pressed
        &&& self.kind(id).spec_captures() == old.kind(id).spec_captures()
        &&& self.table_len() == old.table_len()
        &&& forall|x: Id| #[trigger] self.live(x) == old.live(x)
        &&& forall|x: Id| x != id && old.live(x) ==> #[trigger] self.widget(x) == old.widget(x)
        &&& self.path_map() == old.path_map()
        &&& self.last_id() == old.last_id()
        &&& self.alias_map() == old.alias_map()
        &&& self.removal_queue() == old.removal_queue()
        &&& self.pending() == (if changed {
            old.pending().push(Event { id, kind: EventKind::Change { field: FieldId(lens.spec_field()) } })
        } else {
            old.pending()
        })
    }

    /// Sets the field of widget `id` that `lens` reaches to `value`. Where the value differs
    /// from the one it held, a `Change` event of that field is collected. Returns whether it
    /// differed.
    pub fn set_field<L: WritableLens>(&mut self, id: Id, lens: &L, value: L::Target) -> (changed: bool)
        requires
            old(self).wf(),
            old(self).live(id),
            lens.spec_read(old(self).widget(id)) is Some,
        ensures
            final(self).wf(),
            changed == (lens.spec_read(old(self).widget(id)) != Some(value.deep_view())),
            final(self).field_put(old(self), id, *lens, value.deep_view()),
    {
        let ghost g0 = *self;
        let ghost v = value.deep_view();
        let mut slot: Option<Widget> = None;
        self.nodes.set_and_swap(id, &mut slot);
        let mut w = slot.unwrap();
        let changed = lens.write(&mut w, value);
        self.nodes.set(id, Some(w));
        if changed {
            let e = Event::change(id, lens.field_lens());
            self.events.push(e);
        }
        proof {
            let g = *self;
            assert(g.nodes@ =~= g0.nodes@.update(id as int, g.nodes@[id as int]));
            assert forall|x: Id| #[trigger] g.live(x) == g0.live(x) by {}
            assert forall|x: Id| x != id && g0.live(x) implies #[trigger] g.widget(x) == g0.widget(x) by {}
            assert forall|x: Id| g.live(x) implies #[trigger] g.widget(x).spec_id() == x by {
                assert(g0.live(x));
                assert(g0.widget(x).spec_id() == x);
            }
            assert forall|x: Id| #[trigger] g.has_path(x) <==> (g.live(x) && x != ROOT) by {
                assert(g0.has_path(x) <==> (g0.live(x) && x != ROOT));
            }
            assert forall|x: Id| g.live(x) && x != ROOT implies #[trigger] g.parent_ok(x) by {
                assert(g0.parent_ok(x));
                let p = g0.parent_of(x);
                assert(g.children_of(p) == g0.children_of(p));
            }
            assert forall|p: Id| #[trigger] g.live(p) implies g.children_ok(p) by {
                assert(g0.children_ok(p));
                assert(g.children_of(p) == g0.children_of(p));
                assert forall|i: int| 0 <= i < g.children_of(p).len() implies {
                    let c = #[trigger] g.children_of(p)[i];
                    &&& p < c
                    &&& g.live(c)
                    &&& g.parent_of(c) == p
                } by {
                    let c = g0.children_of(p)[i];
                    assert(g0.live(c));
                }
            }
        }
        changed
    }
}


/// `s` with the element at `i` replaced by the last one, and the last one dropped (what
/// `Vec::swap_remove` leaves).
pub open spec fn swap_removed(s: Seq<Id>, i: int) -> Seq<Id> {
    s.update(i, s.last()).drop_last()
}

proof fn lemma_swap_removed(s: Seq<Id>, i: int)
    requires
        s.no_duplicates(),
        0 <= i < s.len(),
    ensures
        swap_removed(s, i).no_duplicates(),
        swap_removed(s, i).len() == s.len() - 1,
        forall|z: Id| swap_removed(s, i).contains(z) <==> (s.contains(z) && z != s[i]),
        forall|j: int| 0 <= j < swap_removed(s, i).len() ==> s.contains(#[trigger] swap_removed(s, i)[j]) && swap_removed(s, i)[j] != s[i],
{
    let r = swap_removed(s, i);
    assert forall|j: int| 0 <= j < r.len() implies s.contains(#[trigger] r[j]) && r[j] != s[i] by {
        if j == i {
            assert(r[j] == s[s.len() - 1]);
        } else {
            assert(r[j] == s[j]);
        }
    }
    assert forall|z: Id| r.contains(z) <==> (s.contains(z) && z != s[i]) by {
        if s.contains(z) && z != s[i] {
            let k = choose|k: int| 0 <= k < s.len() && s[k] == z;
            if k == s.len() - 1 {
                assert(r[i] == z);
            } else {
                assert(r[k] == z);
            }
        }
    }
    assert forall|a: int, b: int| 0 <= a < r.len() && 0 <= b < r.len() && a != b implies r[a] != r[b] by {
        let ia = if a == i { s.len() - 1 } else { a };
        let ib = if b == i { s.len() - 1 } else { b };
        assert(r[a] == s[ia]);
        assert(r[b] == s[ib]);
    }
}

impl Gui {
    /// Whether the gui keeps a path for `y` that passes through `x`.
    fn path_contains(&self, y: Id, x: Id) -> (r: bool)
        ensures
            r == (self.has_path(y) && self.path(y).contains(x)),
    {
        match paths_get(&self.paths, y) {
            Some(path) => {
                let mut i: usize = 0;
                while i < path.len()
                    invariant
                        i <= path@.len(),
                        self.has_path(y),
                        path@ == self.path(y),
                        forall|j: int| 0 <= j < i ==> path@[j] != x,
                    decreases path@.len() - i,
                {
                    if path[i] == x {
                        assert(self.path(y)[i as int] == x);
                        return true;
                    }
                    i += 1;
                }
                false
            },
            None => false,
        }
    }

    /// Whether `y` is `x` or lies below `x`.
    pub fn is_in_subtree(&self, x: Id, y: Id) -> (r: bool)
        ensures
            r == self.in_subtree(x, y),
    {
        if y == x {
            return true;
        }
        let has_path = match paths_get(&self.paths, y) {
            Some(_) => true,
            None => false,
        };
        has_path && (x == ROOT || self.path_contains(y, x))
    }

    /// `self` is `old` with the widget `x` and every widget below it taken out of the tree.
    pub open spec fn subtree_removed(&self, old: &Gui, x: Id) -> bool {
        let p = old.parent_of(x);
        &&& self.table_len() == old.table_len()
        &&& self.last_id() == old.last_id()
        &&& forall|y: Id| #[trigger] self.live(y) == (old.live(y) && !old.in_subtree(x, y))
        &&& forall|y: Id| self.live(y) && y != p ==> #[trigger] self.widget(y) == old.widget(y)
        &&& self.kind(p) == old.kind(p)
        &&& self.widget(p).inside == old.widget(p).inside
        &&& self.widget(p).pressed == old.widget(p).pressed
        &&& self.children_of(p) == swap_removed(old.children_of(p), old.children_of(p).index_of(x))
        &&& forall|y: Id| #[trigger] self.has_path(y) ==> self.path(y) == old.path(y)
        &&& self.pending() == old.pending()
        &&& self.removal_queue() == old.removal_queue()
        &&& self.alias_map() == old.alias_map()
    }

    /// Takes the widget `x`, and every widget below it, out of the tree.
    fn remove_subtree(&mut self, x: Id)
        requires
            old(self).wf(),
            old(self).live(x),
            x != ROOT,
        ensures
            final(self).wf(),
            final(self).subtree_removed(old(self), x),
    {
        let ghost g0 = *self;
        proof {
            assert(g0.parent_ok(x));
            assert(g0.has_path(x));
        }
        let p: Id = match paths_get(&self.paths, x) {
            Some(path) => if path.len() == 0 {
                ROOT
            } else {
                path[path.len() - 1]
            },
            None => ROOT,
        };
        assert(p == g0.parent_of(x));
        // detach x from its parent
        let mut slot: Option<Widget> = None;
        self.nodes.set_and_swap(p, &mut slot);
        let mut pw = slot.unwrap();
        let ghost pc = pw.children@;
        let mut k: usize = 0;
        while k < pw.children.len() && pw.children[k] != x
            invariant
                pw.children@ == pc,
                pc.contains(x),
                k <= pc.len(),
                forall|j: int| 0 <= j < k ==> pc[j] != x,
            decreases pc.len() - k,
        {
            k += 1;
        }
        proof {
            if k == pc.len() {
                let j = choose|j: int| 0 <= j < pc.len() && pc[j] == x;
                assert(false);
            }
            assert(g0.children_ok(p));
            assert(pc.index_of(x) == k) by {
                assert(pc[k as int] == x);
                if pc.index_of(x) != k {
                    assert(pc[pc.index_of(x)] == x);
                }
            }
        }
        pw.children.swap_remove(k);
        self.nodes.set(p, Some(pw));
        let ghost g1 = *self;
        proof {
            assert(g1.nodes@ =~= g0.nodes@.update(p as int, g1.nodes@[p as int]));
            assert forall|y: Id| #[trigger] g1.has_path(y) implies g1.live(y) by {
                assert(g0.has_path(y) <==> (g0.live(y) && y != ROOT));
            }
        }
        // take out every widget at or below x
        let mut i: usize = 0;
        while i < self.nodes.len()
            invariant
                self.nodes@.len() == g1.nodes@.len(),
                self.id_cnt == g1.id_cnt,
                self.events == g1.events,
                self.to_remove == g1.to_remove,
                self.aliases == g1.aliases,
                i <= self.nodes@.len(),
                forall|y: int| 0 <= y < i ==> #[trigger] self.nodes@[y] == (if g1.live(y as Id) && g1.in_subtree(x, y as Id) {
                    None
                } else {
                    g1.nodes@[y]
                }),
                forall|y: int| i <= y < self.nodes@.len() ==> #[trigger] self.nodes@[y] == g1.nodes@[y],
                forall|y: Id| #[trigger] self.has_path(y) == (g1.has_path(y) && !(y < i && g1.live(y) && g1.in_subtree(x, y))),
                forall|y: Id| #[trigger] self.has_path(y) ==> self.path(y) == g1.path(y),
                forall|y: Id| #[trigger] g1.has_path(y) ==> g1.live(y),
            decreases self.nodes@.len() - i,
        {
            let live = self.nodes[i].is_some();
            let ghost gi = *self;
            proof {
                assert(gi.has_path(i) == g1.has_path(i));
                if gi.has_path(i) {
                    assert(gi.path(i) == g1.path(i));
                }
            }
            proof {
                assert(gi.in_subtree(x, i) == g1.in_subtree(x, i));
                assert(gi.nodes@[i as int] == g1.nodes@[i as int]);
            }
            if live && self.is_in_subtree(x, i) {
                self.nodes.set(i, None);
                paths_remove(&mut self.paths, i);
                proof {
                    assert(self.nodes@ =~= gi.nodes@.update(i as int, None));
                    assert forall|y: Id| #[trigger] self.has_path(y) implies self.path(y) == g1.path(y) by {
                        if self.has_path(y) {
                            assert(gi.has_path(y));
                        }
                    }
                }
            }
            proof {
                let ni = (i + 1) as Id;
                assert forall|y: Id| #[trigger] self.has_path(y) == (g1.has_path(y) && !(y < ni && g1.live(y) && g1.in_subtree(x, y))) by {
                    assert(gi.has_path(y) == (g1.has_path(y) && !(y < i && g1.live(y) && g1.in_subtree(x, y))));
                    if y == i {
                        assert(g1.has_path(y) ==> g1.live(y));
                    }
                }
            }
            i += 1;
        }
        proof {
            let g = *self;
            assert(g1.nodes@ =~= g0.nodes@.update(p as int, g1.nodes@[p as int]));
            assert(g1.path_map() == g0.path_map());
            assert forall|y: Id| g1.in_subtree(x, y) == g0.in_subtree(x, y) by {}
            assert forall|y: Id| g1.live(y) == g0.live(y) by {}
            lemma_swap_removed(pc, k as int);
            // p survives
            assert(!g0.in_subtree(x, p)) by {
                if p != ROOT {
                    assert(g0.parent_ok(p));
                    assert(g0.has_path(p));
                    if g0.path(p).contains(x) {
                        let j = choose|j: int| 0 <= j < g0.path(p).len() && g0.path(p)[j] == x;
                        self.lemma_path_below(g0, p, j);
                    }
                }
            }
            assert forall|y: Id| #[trigger] g.live(y) == (g0.live(y) && !g0.in_subtree(x, y)) by {
                if y < g.nodes@.len() {
                    assert(g.nodes@[y as int] == (if g1.live(y) && g1.in_subtree(x, y) { None } else { g1.nodes@[y as int] }));
                }
            }
            assert forall|y: Id| g.live(y) && y != p implies #[trigger] g.widget(y) == g0.widget(y) by {
                assert(g.nodes@[y as int] == g1.nodes@[y as int]);
            }
            assert(g.nodes@[p as int] == g1.nodes@[p as int]);
            assert(g.children_of(p) == swap_removed(g0.children_of(p), g0.children_of(p).index_of(x)));
            assert forall|y: Id| #[trigger] g.has_path(y) implies g.path(y) == g0.path(y) by {}
            // well formedness
            assert forall|y: Id| g.live(y) implies #[trigger] g.widget(y).spec_id() == y by {
                assert(g0.live(y));
                assert(g0.widget(y).spec_id() == y);
                assert(g.nodes@[y as int] == g1.nodes@[y as int]);
            }
            assert forall|y: Id| #[trigger] g.has_path(y) <==> (g.live(y) && y != ROOT) by {
                assert(g0.has_path(y) <==> (g0.live(y) && y != ROOT));
                assert(g1.has_path(y) == g0.has_path(y));
                if y >= g.nodes@.len() {
                    assert(!g0.live(y));
                }
            }
            assert forall|y: Id| g.live(y) && y != ROOT implies #[trigger] g.parent_ok(y) by {
                assert(g0.live(y));
                assert(g0.parent_ok(y));
                assert(g0.has_path(y));
                assert(g.has_path(y));
                let q = g0.parent_of(y);
                assert(g.parent_of(y) == q);
                assert(!g0.in_subtree(x, q)) by {
                    if q == x {
                        assert(g0.in_subtree(x, y));
                    } else if q != ROOT && g0.has_path(q) && g0.path(q).contains(x) {
                        let j = choose|j: int| 0 <= j < g0.path(q).len() && g0.path(q)[j] == x;
                        assert(g0.path(y)[j] == x);
                        assert(g0.in_subtree(x, y));
                    }
                }
                assert(g.live(q));
                if q != ROOT {
                    assert(g0.has_path(q));
                    assert(g.has_path(q));
                }
                if q == p {
                    assert(y != x);
                    assert(g0.children_of(p).contains(y));
                } else {
                    assert(g.widget(q) == g0.widget(q));
                }
            }
            assert forall|q: Id| #[trigger] g.live(q) implies g.children_ok(q) by {
                assert(g0.live(q));
                assert(g0.children_ok(q));
                assert(!g0.in_subtree(x, q));
                if q == p {
                    assert forall|i: int| 0 <= i < g.children_of(q).len() implies {
                        let c = #[trigger] g.children_of(q)[i];
                        &&& q < c
                        &&& g.live(c)
                        &&& g.parent_of(c) == q
                    } by {
                        let c = g.children_of(q)[i];
                        assert(g0.children_of(q).contains(c));
                        assert(c != x);
                        let j = choose|j: int| 0 <= j < g0.children_of(q).len() && g0.children_of(q)[j] == c;
                        assert(g0.live(c));
                        self.lemma_child_not_below(g0, x, q, c);
                        assert(g0.has_path(c));
                        assert(g.has_path(c));
                    }
                } else {
                    assert(g.widget(q) == g0.widget(q));
                    assert forall|i: int| 0 <= i < g.children_of(q).len() implies {
                        let c = #[trigger] g.children_of(q)[i];
                        &&& q < c
                        &&& g.live(c)
                        &&& g.parent_of(c) == q
                    } by {
                        let c = g0.children_of(q)[i];
                        assert(g0.live(c));
                        assert(c != x) by {
                            assert(g0.parent_of(c) == q);
                        }
                        self.lemma_child_not_below(g0, x, q, c);
                        assert(g0.has_path(c));
                        assert(g.has_path(c));
                    }
                }
            }
        }
    }

    /// An ancestor on the path of a widget is a proper ancestor: the widget is not on the path
    /// of that ancestor.
    proof fn lemma_path_below(&self, g: Gui, y: Id, j: int)
        requires
            g.wf(),
            g.has_path(y),
            0 <= j < g.path(y).len(),
        ensures
            g.path(y)[j] < y,
        decreases y,
    {
        assert(g.live(y));
        assert(g.parent_ok(y));
        let q = g.parent_of(y);
        if q != ROOT {
            assert(g.has_path(q));
            if j < g.path(q).len() {
                self.lemma_path_below(g, q, j);
            }
        }
    }

    /// A child of a widget that does not lie below `x` is not below `x` either, unless it is `x`.
    proof fn lemma_child_not_below(&self, g: Gui, x: Id, q: Id, c: Id)
        requires
            g.wf(),
            g.live(q),
            g.live(c),
            c != x,
            x != ROOT,
            g.children_of(q).contains(c),
            !g.in_subtree(x, q),
        ensures
            !g.in_subtree(x, c),
    {
        assert(g.children_ok(q));
        let j = choose|j: int| 0 <= j < g.children_of(q).len() && g.children_of(q)[j] == c;
        assert(g.parent_of(c) == q);
        assert(g.parent_ok(c));
        assert(g.has_path(c));
        if q != ROOT {
            assert(g.has_path(q));
        }
        if g.path(c).contains(x) {
            let k = choose|k: int| 0 <= k < g.path(c).len() && g.path(c)[k] == x;
            if q != ROOT {
                if k < g.path(q).len() {
                    assert(g.path(q)[k] == x);
                } else {
                    assert(g.path(c)[k] == q);
                }
            }
        }
    }
}


impl Gui {
    /// `m` is marked in `q` for removal, and takes `y` out of the tree of `g` with it.
    pub open spec fn removes(g: Gui, q: Seq<Id>, y: Id) -> bool {
        exists|j: int| 0 <= j < q.len() && #[trigger] q[j] != ROOT && g.live(q[j]) && g.in_subtree(q[j], y)
    }

    /// On the path of `c` below `b`, the path of `b` comes first.
    proof fn lemma_path_prefix(g: Gui, b: Id, c: Id)
        requires
            g.wf(),
            g.has_path(c),
            g.path(c).contains(b),
        ensures
            g.has_path(b),
            g.path(b).len() < g.path(c).len(),
            forall|i: int| 0 <= i < g.path(b).len() ==> g.path(c)[i] == #[trigger] g.path(b)[i],
            g.path(c)[g.path(b).len() as int] == b,
        decreases c,
    {
        assert(g.live(c));
        assert(g.parent_ok(c));
        let q = g.parent_of(c);
        let k = choose|k: int| 0 <= k < g.path(c).len() && g.path(c)[k] == b;
        assert(q != ROOT);
        assert(g.has_path(q));
        if q == b {
        } else {
            assert(k < g.path(q).len());
            assert(g.path(q)[k] == b);
            Gui::lemma_path_prefix(g, b, q);
        }
        // b is live: it is on a path
        assert(g.live(q));
        if b != q {
            assert(g.has_path(b));
        } else {
            assert(g.has_path(b));
        }
    }

    /// Lying below is transitive.
    proof fn lemma_subtree_trans(g: Gui, a: Id, b: Id, c: Id)
        requires
            g.wf(),
            g.live(b),
            g.in_subtree(a, b),
            g.in_subtree(b, c),
        ensures
            g.in_subtree(a, c),
    {
        if a == b || b == c || a == ROOT {
        } else {
            assert(g.has_path(c) && g.path(c).contains(b));
            Gui::lemma_path_prefix(g, b, c);
            let k = choose|k: int| 0 <= k < g.path(b).len() && g.path(b)[k] == a;
            assert(g.path(c)[k] == a);
        }
    }

    /// Two widgets that lie below each other are one.
    pub(crate) proof fn lemma_subtree_antisym(g: Gui, a: Id, b: Id)
        requires
            g.wf(),
            g.in_subtree(a, b),
            g.in_subtree(b, a),
        ensures
            a == b,
    {
        if a != b {
            assert(!g.has_path(ROOT));
            assert(a != ROOT && b != ROOT);
            Gui::lemma_path_prefix(g, a, b);
            Gui::lemma_path_prefix(g, b, a);
        }
    }

    /// Takes the widgets of the removal queue (each with every widget below it) out of the
    /// tree, and empties the queue. The root, and ids of widgets that no longer exist, are
    /// passed over.
    fn remove_marked(&mut self)
        requires
            old(self).wf(),
        ensures
            final(self).wf(),
            final(self).removal_queue() == Seq::<Id>::empty(),
            final(self).table_len() == old(self).table_len(),
            final(self).last_id() == old(self).last_id(),
            forall|y: Id| #[trigger] final(self).live(y) == (old(self).live(y) && !Gui::removes(*old(self), old(self).removal_queue(), y)),
            forall|y: Id| #[trigger] final(self).live(y) ==> {
                &&& final(self).kind(y) == old(self).kind(y)
                &&& final(self).widget(y).inside == old(self).widget(y).inside
                &&& final(self).widget(y).pressed == old(self).widget(y).pressed
            },
            forall|y: Id| #[trigger] final(self).has_path(y) ==> final(self).path(y) == old(self).path(y),
            final(self).pending() == old(self).pending(),
            final(self).alias_map() == old(self).alias_map(),
    {
        let ghost g0 = *self;
        let mut q: Vec<Id> = Vec::new();
        std::mem::swap(&mut q, &mut self.to_remove);
        assert(q@ == g0.removal_queue());
        proof {
            assert(self.same_widgets(&g0));
            self.lemma_same_tree_wf(&g0);
            assert(q@.take(0) =~= Seq::<Id>::empty());
        }
        let mut k: usize = 0;
        while k < q.len()
            invariant
                self.wf(),
                g0.wf(),
                q@ == g0.removal_queue(),
                k <= q@.len(),
                self.removal_queue() == Seq::<Id>::empty(),
                self.table_len() == g0.table_len(),
                self.last_id() == g0.last_id(),
                forall|y: Id| #[trigger] self.live(y) == (g0.live(y) && !Gui::removes(g0, q@.take(k as int), y)),
                forall|y: Id| #[trigger] self.live(y) ==> {
                    &&& self.kind(y) == g0.kind(y)
                    &&& self.widget(y).inside == g0.widget(y).inside
                    &&& self.widget(y).pressed == g0.widget(y).pressed
                },
                forall|y: Id| #[trigger] self.has_path(y) ==> self.path(y) == g0.path(y),
                self.pending() == g0.pending(),
                self.alias_map() == g0.alias_map(),
            decreases q@.len() - k,
        {
            let m = q[k];
            let ghost gk = *self;
            proof {
                assert(q@.take(k + 1) =~= q@.take(k as int).push(m));
            }
            if m != ROOT && self.contains(m) {
                self.remove_subtree(m);
                proof {
                    let g = *self;
                    assert(g0.live(m));
                    assert(gk.has_path(m));
                    assert forall|y: Id| #[trigger] g.live(y) == (g0.live(y) && !Gui::removes(g0, q@.take(k + 1), y)) by {
                        // the subtree of m is the same in gk and g0 for widgets alive in gk
                        if gk.live(y) {
                            if y != ROOT {
                                assert(gk.has_path(y));
                                assert(g0.has_path(y));
                            }
                            assert(gk.in_subtree(m, y) == g0.in_subtree(m, y));
                        }
                        if Gui::removes(g0, q@.take(k + 1), y) {
                            let j = choose|j: int| 0 <= j < q@.take(k + 1).len() && #[trigger] q@.take(k + 1)[j] != ROOT && g0.live(q@.take(k + 1)[j]) && g0.in_subtree(q@.take(k + 1)[j], y);
                            if j < k {
                                assert(q@.take(k as int)[j] == q@.take(k + 1)[j]);
                                assert(Gui::removes(g0, q@.take(k as int), y));
                            }
                        }
                        if Gui::removes(g0, q@.take(k as int), y) {
                            let j = choose|j: int| 0 <= j < q@.take(k as int).len() && #[trigger] q@.take(k as int)[j] != ROOT && g0.live(q@.take(k as int)[j]) && g0.in_subtree(q@.take(k as int)[j], y);
                            assert(q@.take(k + 1)[j] == q@.take(k as int)[j]);
                        }
                        if g0.in_subtree(m, y) {
                            assert(q@.take(k + 1)[k as int] == m);
                        }
                    }
                    assert forall|y: Id| #[trigger] g.live(y) implies {
                        &&& g.kind(y) == g0.kind(y)
                        &&& g.widget(y).inside == g0.widget(y).inside
                        &&& g.widget(y).pressed == g0.widget(y).pressed
                    } by {
                        assert(gk.live(y));
                    }
                    assert forall|y: Id| #[trigger] g.has_path(y) implies g.path(y) == g0.path(y) by {
                        assert(gk.has_path(y));
                    }
                }
            } else {
                proof {
                    assert forall|y: Id| #[trigger] gk.live(y) == (g0.live(y) && !Gui::removes(g0, q@.take(k + 1), y)) by {
                        if Gui::removes(g0, q@.take(k + 1), y) && !Gui::removes(g0, q@.take(k as int), y) {
                            let j = choose|j: int| 0 <= j < q@.take(k + 1).len() && #[trigger] q@.take(k + 1)[j] != ROOT && g0.live(q@.take(k + 1)[j]) && g0.in_subtree(q@.take(k + 1)[j], y);
                            if j < k {
                                assert(q@.take(k as int)[j] == q@.take(k + 1)[j]);
                            } else {
                                // m was taken out by an earlier removal; so was y
                                assert(q@.take(k + 1)[j] == m);
                                assert(m != ROOT && g0.live(m));
                                assert(!gk.live(m));
                                assert(Gui::removes(g0, q@.take(k as int), m));
                                let i = choose|i: int| 0 <= i < q@.take(k as int).len() && #[trigger] q@.take(k as int)[i] != ROOT && g0.live(q@.take(k as int)[i]) && g0.in_subtree(q@.take(k as int)[i], m);
                                Gui::lemma_subtree_trans(g0, q@.take(k as int)[i], m, y);
                            }
                        }
                        if Gui::removes(g0, q@.take(k as int), y) {
                            let j = choose|j: int| 0 <= j < q@.take(k as int).len() && #[trigger] q@.take(k as int)[j] != ROOT && g0.live(q@.take(k as int)[j]) && g0.in_subtree(q@.take(k as int)[j], y);
                            assert(q@.take(k + 1)[j] == q@.take(k as int)[j]);
                        }
                    }
                }
            }
            k += 1;
        }
        proof {
            assert(q@.take(q@.len() as int) =~= q@);
        }
    }
}


impl Gui {
    /// Whether a `New` event about `y` was collected after the first `from` events.
    pub open spec fn announces(&self, from: nat, y: Id) -> bool {
        exists|i: int| from <= i < self.pending().len() && #[trigger] self.pending()[i] == (Event { id: y, kind: EventKind::New })
    }

    /// `self` grew from `old` by work on the widget `id` and the widgets below it: the tree is
    /// well formed, no widget went away, new widgets lie below `id`, widgets that do not lie
    /// below `id` are as they were, paths are kept, events and removals were only added, every
    /// added event is about an existing widget at or below `id`, and each new widget is
    /// announced by an added `New` event.
    pub open spec fn grows_within(&self, old: &Gui, id: Id) -> bool {
        &&& self.wf()
        &&& old.last_id() <= self.last_id()
        &&& forall|y: Id| #[trigger] old.live(y) ==> self.live(y)
        &&& forall|y: Id| #[trigger] self.live(y) && !old.live(y) ==> old.last_id() < y && self.in_subtree(id, y)
            && self.announces(old.pending().len(), y)
        &&& forall|y: Id| old.live(y) && !old.in_subtree(id, y) ==> #[trigger] self.widget(y) == old.widget(y)
        &&& forall|y: Id| #[trigger] old.live(y) ==> self.kind(y).spec_captures() == old.kind(y).spec_captures()
        &&& forall|y: Id| #[trigger] old.has_path(y) ==> self.path(y) == old.path(y)
        &&& old.pending().len() <= self.pending().len()
        &&& self.pending().take(old.pending().len() as int) == old.pending()
        &&& forall|i: int| old.pending().len() <= i < self.pending().len() ==> self.live(#[trigger] self.pending()[i].id) && self.in_subtree(id, self.pending()[i].id)
        &&& old.removal_queue().len() <= self.removal_queue().len()
        &&& self.removal_queue().take(old.removal_queue().len() as int) == old.removal_queue()
        &&& self.alias_map() == old.alias_map()
    }

    /// None of the events collected since `len` events were pending is one that the mouse
    /// causes.
    pub open spec fn no_pointer_events_since(&self, len: nat) -> bool {
        forall|i: int| len <= i < self.pending().len() ==> !is_pointer_kind(#[trigger] self.pending()[i].kind)
    }

    /// Collecting no event that the mouse causes, twice over, collects none.
    proof fn lemma_no_pointer_trans(&self, mid: &Gui, len: nat)
        requires
            len <= mid.pending().len() <= self.pending().len(),
            self.pending().take(mid.pending().len() as int) == mid.pending(),
            mid.no_pointer_events_since(len),
            self.no_pointer_events_since(mid.pending().len()),
        ensures
            self.no_pointer_events_since(len),
    {
        assert forall|i: int| len <= i < self.pending().len() implies !is_pointer_kind(#[trigger] self.pending()[i].kind) by {
            if i < mid.pending().len() {
                assert(self.pending().take(mid.pending().len() as int)[i] == self.pending()[i]);
                assert(mid.pending()[i] == self.pending()[i]);
            }
        }
    }

    /// No widget of `old` changed its hover or press state.
    pub open spec fn keeps_pointer_state(&self, old: &Gui) -> bool {
        forall|y: Id| #[trigger] old.live(y) ==> {
            &&& self.widget(y).inside == old.widget(y).inside
            &&& self.widget(y).pressed == old.widget(y).pressed
        }
    }

    /// Moves the hover and press state of widget `id` on by one frame of `input`, collecting
    /// the events this gives (see `pointer_events`); returns what the widget captures if the
    /// mouse is inside it.
    fn pointer_step(&mut self, id: Id, input: &PointerInput) -> (cap: Capture)
        requires
            old(self).wf(),
            old(self).live(id),
        ensures
            final(self).wf(),
            final(self).table_len() == old(self).table_len(),
            final(self).last_id() == old(self).last_id(),
            forall|y: Id| #[trigger] final(self).live(y) == old(self).live(y),
            forall|y: Id| y != id && old(self).live(y) ==> #[trigger] final(self).widget(y) == old(self).widget(y),
            final(self).kind(id) == old(self).kind(id),
            final(self).children_of(id) == old(self).children_of(id),
            final(self).widget(id).inside == input.spec_inside(id),
            final(self).widget(id).pressed == pressed_after(
                old(self).widget(id).pressed,
                input.spec_inside(id),
                input.pressed,
                input.released,
            ),
            final(self).path_map() == old(self).path_map(),
            final(self).pending() == old(self).pending() + pointer_events(
                id,
                old(self).widget(id).inside,
                old(self).widget(id).pressed,
                input.spec_inside(id),
                input.pressed,
                input.released,
            ),
            final(self).removal_queue() == old(self).removal_queue(),
            final(self).alias_map() == old(self).alias_map(),
            cap == (if input.spec_inside(id) {
                old(self).kind(id).spec_captures()
            } else {
                Capture { mouse: false, keyboard: false }
            }),
    {
        let ghost g0 = *self;
        let mut slot: Option<Widget> = None;
        self.nodes.set_and_swap(id, &mut slot);
        let mut w = slot.unwrap();
        let now_inside = input.is_inside(id);
        let prev_inside = w.inside;
        w.inside = now_inside;
        if now_inside && !prev_inside {
            self.events.push(Event::new(id, EventKind::Hover));
        } else if prev_inside && !now_inside {
            self.events.push(Event::new(id, EventKind::Unhover));
        }
        let cap = if now_inside {
            w.inner.captures()
        } else {
            Capture::none()
        };
        if now_inside && input.pressed {
            w.pressed = true;
            self.events.push(Event::new(id, EventKind::Press));
        }
        if w.pressed && input.released {
            w.pressed = false;
            self.events.push(Event::new(id, EventKind::Release));
        }
        self.nodes.set(id, Some(w));
        proof {
            let g = *self;
            assert(g.pending() =~= g0.pending() + pointer_events(
                id,
                g0.widget(id).inside,
                g0.widget(id).pressed,
                input.spec_inside(id),
                input.pressed,
                input.released,
            ));
            assert(g.nodes@ =~= g0.nodes@.update(id as int, g.nodes@[id as int]));
            assert forall|y: Id| #[trigger] g.live(y) == g0.live(y) by {}
            assert forall|y: Id| y != id && g0.live(y) implies #[trigger] g.widget(y) == g0.widget(y) by {}
            assert forall|y: Id| g.live(y) implies #[trigger] g.widget(y).spec_id() == y by {
                assert(g0.live(y));
                assert(g0.widget(y).spec_id() == y);
            }
            assert forall|y: Id| #[trigger] g.has_path(y) <==> (g.live(y) && y != ROOT) by {
                assert(g0.has_path(y) <==> (g0.live(y) && y != ROOT));
            }
            assert forall|y: Id| g.live(y) && y != ROOT implies #[trigger] g.parent_ok(y) by {
                assert(g0.parent_ok(y));
                let p = g0.parent_of(y);
                assert(g.children_of(p) == g0.children_of(p));
            }
            assert forall|p: Id| #[trigger] g.live(p) implies g.children_ok(p) by {
                assert(g0.children_ok(p));
                assert(g.children_of(p) == g0.children_of(p));
                assert forall|i: int| 0 <= i < g.children_of(p).len() implies {
                    let c = #[trigger] g.children_of(p)[i];
                    &&& p < c
                    &&& g.live(c)
                    &&& g.parent_of(c) == p
                } by {
                    let c = g0.children_of(p)[i];
                    assert(g0.live(c));
                }
            }
        }
        cap
    }
}


/// Whether `k` is one of the kinds of event that the mouse causes.
pub open spec fn is_pointer_kind(k: EventKind) -> bool {
    k is Press || k is Release || k is Hover || k is Unhover
}

/// The number of events of `local` that are `kind` events of widget `id`.
pub open spec fn count_events(local: Seq<Event>, id: Id, kind: EventKind) -> nat
    decreases local.len(),
{
    if local.len() == 0 {
        0
    } else {
        count_events(local.drop_last(), id, kind) + (if local.last() == (Event { id, kind }) {
            1nat
        } else {
            0nat
        })
    }
}

/// `n` events announcing that `field` of widget `id` changed.
pub open spec fn change_events(id: Id, field: Field, n: nat) -> Seq<Event> {
    Seq::new(n, |i: int| Event { id, kind: EventKind::Change { field: FieldId(field) } })
}

impl Gui {
    /// The state of the toggle button `id` (false for other widgets).
    pub open spec fn toggle_state(&self, id: Id) -> bool {
        match self.kind(id) {
            WidgetKind::ToggleButton(t) => t.state,
            _ => false,
        }
    }

    /// The state of the radio button `id` (false for other widgets).
    pub open spec fn radio_state(&self, id: Id) -> bool {
        match self.kind(id) {
            WidgetKind::RadioButton(t) => t.state,
            _ => false,
        }
    }

    /// Setting a field of a widget is growth within that widget.
    proof fn lemma_field_put_grows<L: WritableLens>(&self, old: &Gui, id: Id, lens: L, v: <L::Target as DeepView>::V)
        requires
            old.wf(),
            self.wf(),
            old.live(id),
            self.field_put(old, id, lens, v),
            lens.spec_read(old.widget(id)) is Some,
            forall|w: Widget| #[trigger] lens.spec_read(w) is Some ==> !(w.inner is Root),
        ensures
            self.grows_within(old, id),
    {
        assert(self.pending().take(old.pending().len() as int) =~= old.pending());
        assert forall|y: Id| old.live(y) && !old.in_subtree(id, y) implies #[trigger] self.widget(y) == old.widget(y) by {
            assert(y != id);
        }
        assert forall|i: int| old.pending().len() <= i < self.pending().len() implies self.live(#[trigger] self.pending()[i].id) by {}
        assert(self.removal_queue().take(old.removal_queue().len() as int) =~= old.removal_queue());
        assert forall|y: Id| #[trigger] old.live(y) implies self.kind(y).spec_captures() == old.kind(y).spec_captures() by {
            if y != id {
                assert(self.widget(y) == old.widget(y));
            }
        }
        assert forall|y: Id| #[trigger] old.has_path(y) implies self.path(y) == old.path(y) by {}
    }

    /// A well formed gui grows within any widget from itself.
    proof fn lemma_grows_refl(&self, id: Id)
        requires
            self.wf(),
        ensures
            self.grows_within(self, id),
    {
        assert(self.pending().take(self.pending().len() as int) =~= self.pending());
        assert(self.removal_queue().take(self.removal_queue().len() as int) =~= self.removal_queue());
    }

    /// Growth within `id` after growth within `id` is growth within `id`.
    proof fn lemma_grows_trans(&self, mid: &Gui, old: &Gui, id: Id)
        requires
            old.wf(),
            old.live(id),
            mid.grows_within(old, id),
            self.grows_within(mid, id),
        ensures
            self.grows_within(old, id),
    {
        assert forall|y: Id| #[trigger] self.live(y) && !old.live(y) implies old.last_id() < y && self.in_subtree(id, y)
            && self.announces(old.pending().len(), y) by {
            if mid.live(y) {
                assert(mid.in_subtree(id, y));
                if y != id {
                    assert(mid.has_path(y));
                    assert(self.path(y) == mid.path(y));
                    assert(self.has_path(y));
                }
                assert(mid.announces(old.pending().len(), y));
                let i = choose|i: int| old.pending().len() <= i < mid.pending().len() && #[trigger] mid.pending()[i] == (Event { id: y, kind: EventKind::New });
                assert(self.pending().take(mid.pending().len() as int)[i] == self.pending()[i]);
                assert(self.pending()[i] == (Event { id: y, kind: EventKind::New }));
            } else {
                assert(self.announces(mid.pending().len(), y));
                let i = choose|i: int| mid.pending().len() <= i < self.pending().len() && #[trigger] self.pending()[i] == (Event { id: y, kind: EventKind::New });
                assert(self.pending()[i] == (Event { id: y, kind: EventKind::New }));
            }
        }
        assert forall|y: Id| old.live(y) && !old.in_subtree(id, y) implies #[trigger] self.widget(y) == old.widget(y) by {
            assert(mid.live(y));
            if mid.in_subtree(id, y) {
                if y != id {
                    assert(mid.has_path(y));
                    assert(old.has_path(y));
                    assert(mid.path(y) == old.path(y));
                }
            }
        }
        assert forall|y: Id| #[trigger] old.has_path(y) implies self.path(y) == old.path(y) by {
            assert(mid.has_path(y));
        }
        assert forall|y: Id| #[trigger] old.live(y) implies self.kind(y).spec_captures() == old.kind(y).spec_captures() by {
            assert(mid.live(y));
        }
        assert(self.pending().take(old.pending().len() as int) =~= old.pending()) by {
            assert(self.pending().take(mid.pending().len() as int).take(old.pending().len() as int) =~= self.pending().take(old.pending().len() as int));
        }
        assert forall|i: int| old.pending().len() <= i < self.pending().len() implies self.live(#[trigger] self.pending()[i].id) && self.in_subtree(id, self.pending()[i].id) by {
            if i < mid.pending().len() {
                assert(self.pending()[i] == self.pending().take(mid.pending().len() as int)[i]);
                let y = mid.pending()[i].id;
                assert(mid.live(y) && mid.in_subtree(id, y));
                if y != id {
                    assert(mid.has_path(y));
                    assert(self.path(y) == mid.path(y));
                }
            }
        }
        assert(self.removal_queue().take(old.removal_queue().len() as int) =~= old.removal_queue()) by {
            assert(self.removal_queue().take(mid.removal_queue().len() as int).take(old.removal_queue().len() as int) =~= self.removal_queue().take(old.removal_queue().len() as int));
        }
    }

    /// Flips the toggle button `id` once for each `Press` of it among `local`, collecting a
    /// `Change` of its state each time.
    fn toggle_update(&mut self, id: Id, local: &Vec<Event>)
        requires
            old(self).wf(),
            old(self).live(id),
            old(self).kind(id) is ToggleButton,
        ensures
            final(self).grows_within(old(self), id),
            final(self).kind(id) is ToggleButton,
            final(self).toggle_state(id) == (old(self).toggle_state(id) != (count_events(local@, id, EventKind::Press) % 2 == 1)),
            forall|y: Id| y != id && old(self).live(y) ==> #[trigger] final(self).widget(y) == old(self).widget(y),
            final(self).pending() == old(self).pending() + change_events(id, Field::ToggleButtonState, count_events(local@, id, EventKind::Press)),
            final(self).removal_queue() == old(self).removal_queue(),
            final(self).last_id() == old(self).last_id(),
            final(self).keeps_pointer_state(old(self)),
            final(self).no_pointer_events_since(old(self).pending().len()),
    {
        let ghost g0 = *self;
        proof {
            self.lemma_grows_refl(id);
            assert(local@.take(0) =~= Seq::<Event>::empty());
            assert(g0.pending() + change_events(id, Field::ToggleButtonState, 0) =~= g0.pending());
        }
        let mut i: usize = 0;
        while i < local.len()
            invariant
                self.wf(),
                g0.wf(),
                g0.live(id),
                self.live(id),
                self.kind(id) is ToggleButton,
                i <= local@.len(),
                self.toggle_state(id) == (g0.toggle_state(id) != (count_events(local@.take(i as int), id, EventKind::Press) % 2 == 1)),
                self.pending() == g0.pending() + change_events(id, Field::ToggleButtonState, count_events(local@.take(i as int), id, EventKind::Press)),
                forall|y: Id| y != id && g0.live(y) ==> #[trigger] self.widget(y) == g0.widget(y),
                self.grows_within(&g0, id),
                self.keeps_pointer_state(&g0),
                self.removal_queue() == g0.removal_queue(),
                self.last_id() == g0.last_id(),
            decreases local@.len() - i,
        {
            let e = local[i];
            proof {
                assert(local@.take(i + 1).drop_last() =~= local@.take(i as int));
                assert(local@.take(i + 1).last() == e);
            }
            if e.id == id && e.kind == EventKind::Press {
                let state = match &self.widget_ref(id).inner {
                    WidgetKind::ToggleButton(t) => t.state,
                    _ => false,
                };
                let ghost gi = *self;
                self.set_field(id, &ToggleButtonStateLens, !state);
                proof {
                    let n = count_events(local@.take(i as int), id, EventKind::Press);
                    assert(self.pending() =~= g0.pending() + change_events(id, Field::ToggleButtonState, n + 1));
                    self.lemma_field_put_grows(&gi, id, ToggleButtonStateLens, !state);
                    self.lemma_grows_trans(&gi, &g0, id);
                }
            }
            i += 1;
        }
        proof {
            assert(local@.take(local@.len() as int) =~= local@);
        }
    }
}


impl Gui {
    /// Switches the radio button `id` on at a `Release` of it among `local`, collecting a
    /// `Change` of its state if it was off.
    fn radio_update(&mut self, id: Id, local: &Vec<Event>)
        requires
            old(self).wf(),
            old(self).live(id),
            old(self).kind(id) is RadioButton,
        ensures
            final(self).grows_within(old(self), id),
            final(self).kind(id) is RadioButton,
            final(self).radio_state(id) == (old(self).radio_state(id) || count_events(local@, id, EventKind::Release) > 0),
            forall|y: Id| y != id && old(self).live(y) ==> #[trigger] final(self).widget(y) == old(self).widget(y),
            final(self).pending() == old(self).pending() + (if !old(self).radio_state(id) && count_events(local@, id, EventKind::Release) > 0 {
                change_events(id, Field::RadioButtonState, 1)
            } else {
                Seq::<Event>::empty()
            }),
            final(self).removal_queue() == old(self).removal_queue(),
            final(self).last_id() == old(self).last_id(),
            final(self).keeps_pointer_state(old(self)),
            final(self).no_pointer_events_since(old(self).pending().len()),
    {
        let ghost g0 = *self;
        proof {
            self.lemma_grows_refl(id);
            assert(local@.take(0) =~= Seq::<Event>::empty());
            assert(g0.pending() + Seq::<Event>::empty() =~= g0.pending());
        }
        let mut i: usize = 0;
        while i < local.len()
            invariant
                self.wf(),
                g0.wf(),
                g0.live(id),
                self.live(id),
                self.kind(id) is RadioButton,
                i <= local@.len(),
                self.radio_state(id) == (g0.radio_state(id) || count_events(local@.take(i as int), id, EventKind::Release) > 0),
                forall|y: Id| y != id && g0.live(y) ==> #[trigger] self.widget(y) == g0.widget(y),
                self.pending() == g0.pending() + (if !g0.radio_state(id) && count_events(local@.take(i as int), id, EventKind::Release) > 0 {
                    change_events(id, Field::RadioButtonState, 1)
                } else {
                    Seq::<Event>::empty()
                }),
                self.grows_within(&g0, id),
                self.keeps_pointer_state(&g0),
                self.removal_queue() == g0.removal_queue(),
                self.last_id() == g0.last_id(),
            decreases local@.len() - i,
        {
            let e = local[i];
            proof {
                assert(local@.take(i + 1).drop_last() =~= local@.take(i as int));
                assert(local@.take(i + 1).last() == e);
            }
            if e.id == id && e.kind == EventKind::Release {
                let state = match &self.widget_ref(id).inner {
                    WidgetKind::RadioButton(t) => t.state,
                    _ => true,
                };
                if !state {
                    let ghost gi = *self;
                    self.set_field(id, &RadioButtonStateLens, true);
                    proof {
                        assert(self.pending() =~= g0.pending() + change_events(id, Field::RadioButtonState, 1));
                        self.lemma_field_put_grows(&gi, id, RadioButtonStateLens, true);
                        self.lemma_grows_trans(&gi, &g0, id);
                    }
                }
            }
            i += 1;
        }
        proof {
            assert(local@.take(local@.len() as int) =~= local@);
        }
    }
}


impl Gui {
    /// Puts `k` in place of what the widget `id` holds, and returns what it held. The root
    /// keeps being the root.
    fn swap_inner(&mut self, id: Id, k: WidgetKind) -> (r: WidgetKind)
        requires
            old(self).wf(),
            old(self).live(id),
            id != ROOT,
        ensures
            final(self).wf(),
            r == old(self).kind(id),
            final(self).widget(id) == (Widget { inner: k, ..old(self).widget(id) }),
            final(self).table_len() == old(self).table_len(),
            final(self).last_id() == old(self).last_id(),
            forall|y: Id| #[trigger] final(self).live(y) == old(self).live(y),
            forall|y: Id| y != id && old(self).live(y) ==> #[trigger] final(self).widget(y) == old(self).widget(y),
            final(self).path_map() == old(self).path_map(),
            final(self).pending() == old(self).pending(),
            final(self).removal_queue() == old(self).removal_queue(),
            final(self).alias_map() == old(self).alias_map(),
    {
        let ghost g0 = *self;
        let mut slot: Option<Widget> = None;
        self.nodes.set_and_swap(id, &mut slot);
        let w = slot.unwrap();
        let r = w.inner;
        self.nodes.set(id, Some(Widget { inner: k, children: w.children, inside: w.inside, pressed: w.pressed, id: w.id }));
        proof {
            let g = *self;
            assert(g.nodes@ =~= g0.nodes@.update(id as int, g.nodes@[id as int]));
            assert forall|y: Id| #[trigger] g.live(y) == g0.live(y) by {}
            assert forall|y: Id| y != id && g0.live(y) implies #[trigger] g.widget(y) == g0.widget(y) by {}
            assert forall|y: Id| g.live(y) implies #[trigger] g.widget(y).spec_id() == y by {
                assert(g0.live(y));
                assert(g0.widget(y).spec_id() == y);
            }
            assert forall|y: Id| #[trigger] g.has_path(y) <==> (g.live(y) && y != ROOT) by {
                assert(g0.has_path(y) <==> (g0.live(y) && y != ROOT));
            }
            assert forall|y: Id| g.live(y) && y != ROOT implies #[trigger] g.parent_ok(y) by {
                assert(g0.parent_ok(y));
                let p = g0.parent_of(y);
                assert(g.children_of(p) == g0.children_of(p));
            }
            assert forall|p: Id| #[trigger] g.live(p) implies g.children_ok(p) by {
                assert(g0.children_ok(p));
                assert(g.children_of(p) == g0.children_of(p));
                assert forall|i: int| 0 <= i < g.children_of(p).len() implies {
                    let c = #[trigger] g.children_of(p)[i];
                    &&& p < c
                    &&& g.live(c)
                    &&& g.parent_of(c) == p
                } by {
                    let c = g0.children_of(p)[i];
                    assert(g0.live(c));
                }
            }
        }
        r
    }
}


/// A copy of `v`.
fn clone_opt_string(v: &Option<String>) -> (r: Option<String>)
    ensures
        opt_str(r) == opt_str(*v),
{
    match v {
        Some(x) => Some(x.clone()),
        None => None,
    }
}

impl Gui {
    /// Inserting below a widget that lies below `sid` is growth within `sid`.
    proof fn lemma_inserted_grows(&self, old: &Gui, parent: Id, id: Id, k: WidgetKind, sid: Id)
        requires
            old.wf(),
            self.wf(),
            old.live(sid),
            sid != ROOT,
            old.live(parent),
            old.in_subtree(sid, parent),
            self.inserted(old, parent, id, k),
        ensures
            self.grows_within(old, sid),
            self.in_subtree(sid, id),
            self.in_subtree(sid, parent),
    {
        assert(parent != ROOT);
        assert(old.has_path(parent));
        if parent != sid {
            assert(old.path(parent).contains(sid));
        }
        assert(self.has_path(parent));
        assert(self.path(parent) == old.path(parent));
        assert(self.in_subtree(sid, parent));
        assert(self.live(id));
        assert(self.parent_ok(id));
        assert(self.in_subtree(parent, id)) by {
            assert(self.path(id) == self.path(parent).push(parent));
            assert(self.path(id)[self.path(parent).len() as int] == parent);
            assert(self.has_path(id));
        }
        Gui::lemma_subtree_trans(*self, sid, parent, id);
        assert forall|y: Id| #[trigger] self.live(y) && !old.live(y) implies old.last_id() < y && self.in_subtree(sid, y)
            && self.announces(old.pending().len(), y) by {
            assert(self.in_subtree(id, y));
            Gui::lemma_subtree_trans(*self, sid, id, y);
            let i = old.pending().len() + (y - id);
            assert(self.pending()[i] == Gui::new_events(id, k)[y - id]);
            assert(self.pending()[i] == (Event { id: y, kind: EventKind::New }));
        }
        assert forall|y: Id| old.live(y) && !old.in_subtree(sid, y) implies #[trigger] self.widget(y) == old.widget(y) by {
            assert(y != parent);
        }
        assert forall|y: Id| #[trigger] old.live(y) implies self.kind(y).spec_captures() == old.kind(y).spec_captures() by {
            if y != parent {
                assert(self.widget(y) == old.widget(y));
            }
        }
        assert(self.pending().take(old.pending().len() as int) =~= old.pending());
        assert forall|i: int| old.pending().len() <= i < self.pending().len() implies self.live(#[trigger] self.pending()[i].id) by {
            let e = self.pending()[i];
            assert(Gui::new_events(id, k).contains(e)) by {
                assert(e == Gui::new_events(id, k)[i - old.pending().len()]);
            }
            assert(id <= e.id <= self.last_id());
        }
        assert(self.removal_queue().take(old.removal_queue().len() as int) =~= old.removal_queue());
    }

    /// Growth within a widget `t` below `sid` is growth within `sid`.
    proof fn lemma_grows_widen(&self, old: &Gui, t: Id, sid: Id)
        requires
            old.wf(),
            old.live(t),
            old.live(sid),
            old.in_subtree(sid, t),
            self.grows_within(old, t),
        ensures
            self.grows_within(old, sid),
    {
        assert(self.live(t));
        if t != sid {
            assert(old.has_path(t));
            assert(self.path(t) == old.path(t));
            assert(self.has_path(t));
        }
        assert(self.in_subtree(sid, t));
        assert forall|y: Id| #[trigger] self.live(y) && !old.live(y) implies old.last_id() < y && self.in_subtree(sid, y) by {
            Gui::lemma_subtree_trans(*self, sid, t, y);
        }
        assert forall|y: Id| old.live(y) && !old.in_subtree(sid, y) implies #[trigger] self.widget(y) == old.widget(y) by {
            if old.in_subtree(t, y) {
                Gui::lemma_subtree_trans(*old, sid, t, y);
            }
        }
        assert forall|i: int| old.pending().len() <= i < self.pending().len() implies self.live(#[trigger] self.pending()[i].id) && self.in_subtree(sid, self.pending()[i].id) by {
            Gui::lemma_subtree_trans(*self, sid, t, self.pending()[i].id);
        }
    }

    /// Collecting an event about an existing widget below `sid` is growth within `sid`.
    proof fn lemma_push_grows(&self, old: &Gui, sid: Id, e: Event)
        requires
            old.wf(),
            self.same_tree(old),
            self.pending() == old.pending().push(e),
            self.removal_queue() == old.removal_queue(),
            old.live(e.id),
            old.in_subtree(sid, e.id),
        ensures
            self.grows_within(old, sid),
    {
        self.lemma_same_tree_wf(old);
        assert(self.pending().take(old.pending().len() as int) =~= old.pending());
        assert(self.removal_queue().take(old.removal_queue().len() as int) =~= old.removal_queue());
        assert forall|y: Id| #[trigger] old.has_path(y) implies self.path(y) == old.path(y) by {}
        assert forall|y: Id| #[trigger] old.live(y) implies self.kind(y).spec_captures() == old.kind(y).spec_captures() by {
            assert(self.widget(y) == old.widget(y));
        }
    }

    /// Marking a widget for removal is growth within any widget.
    proof fn lemma_mark_grows(&self, old: &Gui, sid: Id, m: Id)
        requires
            old.wf(),
            self.same_tree(old),
            self.pending() == old.pending(),
            self.removal_queue() == old.removal_queue().push(m),
        ensures
            self.grows_within(old, sid),
    {
        self.lemma_same_tree_wf(old);
        assert(self.pending().take(old.pending().len() as int) =~= old.pending());
        assert(self.removal_queue().take(old.removal_queue().len() as int) =~= old.removal_queue());
        assert forall|y: Id| #[trigger] old.has_path(y) implies self.path(y) == old.path(y) by {}
        assert forall|y: Id| #[trigger] old.live(y) implies self.kind(y).spec_captures() == old.kind(y).spec_captures() by {
            assert(self.widget(y) == old.widget(y));
        }
    }

    /// Marks every child of `sid` other than `keep` for removal.
    fn mark_children_except(&mut self, sid: Id, keep: Id)
        requires
            old(self).wf(),
            old(self).live(sid),
        ensures
            final(self).grows_within(old(self), sid),
            final(self).same_tree(old(self)),
            final(self).pending() == old(self).pending(),
            final(self).removal_queue() == old(self).removal_queue() + old(self).children_of(sid).filter(|c: Id| c != keep),
            final(self).keeps_pointer_state(old(self)),
            final(self).no_pointer_events_since(old(self).pending().len()),
    {
        let ghost g0 = *self;
        let children = self.widget_ref(sid).children.clone();
        assert(children@ == g0.children_of(sid));
        proof {
            self.lemma_grows_refl(sid);
            self.lemma_same_tree_refl();
            assert(children@.take(0).filter(|c: Id| c != keep) =~= Seq::<Id>::empty());
            assert(g0.removal_queue() + Seq::<Id>::empty() =~= g0.removal_queue());
        }
        let mut i: usize = 0;
        while i < children.len()
            invariant
                g0.wf(),
                g0.live(sid),
                self.wf(),
                children@ == g0.children_of(sid),
                i <= children@.len(),
                self.grows_within(&g0, sid),
                self.same_tree(&g0),
                self.pending() == g0.pending(),
                self.removal_queue() == g0.removal_queue() + children@.take(i as int).filter(|c: Id| c != keep),
            decreases children@.len() - i,
        {
            let c = children[i];
            proof {
                assert(children@.take(i + 1).drop_last() =~= children@.take(i as int));
                reveal_with_fuel(Seq::filter, 1);
            }
            if c != keep {
                let ghost gi = *self;
                self.remove(c);
                proof {
                    self.lemma_mark_grows(&gi, sid, c);
                    self.lemma_grows_trans(&gi, &g0, sid);
                    assert(self.same_tree(&g0));
                    assert(self.removal_queue() =~= g0.removal_queue() + children@.take(i + 1).filter(|c: Id| c != keep));
                }
            } else {
                proof {
                    assert(self.removal_queue() =~= g0.removal_queue() + children@.take(i + 1).filter(|c: Id| c != keep));
                }
            }
            i += 1;
        }
        proof {
            assert(children@.take(children@.len() as int) =~= children@);
        }
    }

    proof fn lemma_same_tree_refl(&self)
        ensures
            self.same_tree(self),
    {
    }
}

} // verus!
