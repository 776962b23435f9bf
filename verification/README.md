# floem_view

The view tree of a user interface and the walks over it, verified with Verus.

- `src/tree.rs`: the tree of views (`ViewTree`, `ViewId`) and its model.
- `src/navigation.rs`: siblings, the deepest last child, and the next and
  previous view in tree order.
- `src/tree_order.rs`, `src/preorder.rs`: laws of tree order.
- `src/focus.rs`: keyboard focus and tab navigation.
- `src/scroll.rs`: whether a view contains a scroll target.
- `src/debug_tree.rs`: the rows and ascii art of a debug drawing of the tree.
- `app/`: printing, layout through the layout engine, and painting, which
  work on floating point geometry and stay outside the verified library.
