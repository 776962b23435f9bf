//! The view tree of a user interface and the walks over it: tree order for
//! keyboard navigation, subtree search for scrolling, and the rows of a
//! debug drawing of the tree.
pub mod tree;
pub mod navigation;
pub mod tree_order;
pub mod focus;
pub mod scroll;
pub mod debug_tree;
pub mod preorder;
