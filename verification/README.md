# gui

A retained-mode widget tree with verified behaviour.

Widgets (buttons, toggle buttons, text fields, containers, selects, dropdown buttons, radio
buttons) live in a tree under a root and are addressed by id or by alias. Each frame, every
widget follows the mouse (hover, press, release), widgets react to the events of their part of
the tree (a toggle button flips when pressed, a select opens its list and takes the value of the
option pressed), and the events collected are handed out. Fields are read and set through
lenses; every change made through a lens is announced by a `Change` event.

## Layout

- `src/` — the library, verified with Verus:
  - `gui.rs` — the tree: insertion, lookup, paths, aliases, removal, lens writes.
  - `gui/frame.rs` — one frame: removal of marked widgets, the bottom-up pass over the tree
    with its capture, the report of removed widgets, and the hand-out of events.
  - `gui/lists.rs` — selects and dropdown buttons.
  - `widget.rs`, `event.rs`, `lens.rs`, `pointer.rs`, `placement.rs` — widgets, events,
    lenses, the mouse, and the vocabulary of layout.
  - `collections.rs` — the ordered maps of the `indexmap` crate that the tree keeps.
  - `laws.rs` — properties that relate several operations.
- `app/` — plain Rust around the library: geometry in `f32`, the layout algorithm, the drawer
  interface, turning mouse positions into the library's per-widget input, and printing the
  tree.
- `tests/` — tests of the library.

## How the tree is held

Each widget keeps the ids of its children in a `Vec`, and the gui keeps every widget in one
table indexed by id, instead of each widget owning a map of its child widgets. The tree's
invariant (every widget has a path from the root through the children of its ancestors, ids
are unique, children lie below their parent) is stated and proved over this flat table, and
every operation on the tree is verified against it; an outside map holding widgets inside
widgets would be opaque to the proofs. The `indexmap` crate is still used where the logic keeps
ordered maps of plain values: the paths, the aliases and the option maps of lists. Because the
table holds one entry per id up to the largest, the largest id is one less than `usize::MAX`.

