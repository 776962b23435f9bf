use floem_view::navigation::{
    view_nested_last_child, view_next_sibling, view_previous_sibling, view_tree_next,
    view_tree_previous,
};
use floem_view::scroll::scroll_to;
use floem_view::tree::{ViewId, ViewTree};

/// root
/// ├── a
/// │   ├── c
/// │   └── d
/// │       └── e
/// └── b
fn sample() -> (ViewTree, [ViewId; 6]) {
    let mut t = ViewTree::new();
    let root = t.root();
    let a = t.add_child(root);
    let b = t.add_child(root);
    let c = t.add_child(a);
    let d = t.add_child(a);
    let e = t.add_child(d);
    (t, [root, a, b, c, d, e])
}

#[test]
fn new_tree_holds_only_the_root() {
    let t = ViewTree::new();
    assert_eq!(t.len(), 1);
    assert_eq!(t.root(), ViewId(0));
    assert_eq!(t.parent(t.root()), None);
    assert!(t.children(t.root()).is_empty());
}

#[test]
fn add_child_appends_in_order() {
    let (t, [root, a, b, c, d, e]) = sample();
    assert_eq!(t.len(), 6);
    assert_eq!(t.children(root), vec![a, b]);
    assert_eq!(t.children(a), vec![c, d]);
    assert_eq!(t.children(d), vec![e]);
    assert_eq!(t.parent(e), Some(d));
    assert_eq!(t.parent(b), Some(root));
    assert_eq!(e, ViewId(5));
}

#[test]
fn siblings() {
    let (t, [root, a, b, c, d, e]) = sample();
    assert_eq!(view_next_sibling(&t, a), Some(b));
    assert_eq!(view_next_sibling(&t, b), None);
    assert_eq!(view_next_sibling(&t, root), None);
    assert_eq!(view_next_sibling(&t, c), Some(d));
    assert_eq!(view_next_sibling(&t, e), None);
    assert_eq!(view_previous_sibling(&t, b), Some(a));
    assert_eq!(view_previous_sibling(&t, a), None);
    assert_eq!(view_previous_sibling(&t, root), None);
    assert_eq!(view_previous_sibling(&t, d), Some(c));
}

#[test]
fn nested_last_child_follows_last_children() {
    let (t, [root, a, b, _c, d, e]) = sample();
    assert_eq!(view_nested_last_child(&t, root), b);
    assert_eq!(view_nested_last_child(&t, a), e);
    assert_eq!(view_nested_last_child(&t, d), e);
    assert_eq!(view_nested_last_child(&t, e), e);
}

#[test]
fn tree_next_is_tree_order() {
    let (t, [root, a, b, c, d, e]) = sample();
    assert_eq!(view_tree_next(&t, root), Some(a));
    assert_eq!(view_tree_next(&t, a), Some(c));
    assert_eq!(view_tree_next(&t, c), Some(d));
    assert_eq!(view_tree_next(&t, d), Some(e));
    // e is the last child of the last child of a: climbs to a's next sibling
    assert_eq!(view_tree_next(&t, e), Some(b));
    assert_eq!(view_tree_next(&t, b), None);
}

#[test]
fn tree_previous_is_reverse_tree_order() {
    let (t, [root, a, b, c, d, e]) = sample();
    assert_eq!(view_tree_previous(&t, root, b), Some(e));
    assert_eq!(view_tree_previous(&t, root, e), Some(d));
    assert_eq!(view_tree_previous(&t, root, d), Some(c));
    assert_eq!(view_tree_previous(&t, root, c), Some(a));
    assert_eq!(view_tree_previous(&t, root, a), Some(root));
    assert_eq!(view_tree_previous(&t, root, root), None);
}

#[test]
fn tree_previous_with_another_root_view() {
    let (t, [_root, a, _b, c, _d, _e]) = sample();
    // the walk stops at the given root view
    assert_eq!(view_tree_previous(&t, a, a), None);
    assert_eq!(view_tree_previous(&t, c, c), None);
    assert_eq!(view_tree_previous(&t, a, c), Some(a));
}

#[test]
fn previous_undoes_next_on_every_view() {
    let (t, views) = sample();
    let root = views[0];
    for v in views {
        match view_tree_next(&t, v) {
            Some(n) => assert_eq!(view_tree_previous(&t, root, n), Some(v)),
            None => assert_eq!(v, view_nested_last_child(&t, root)),
        }
        match view_tree_previous(&t, root, v) {
            Some(p) => assert_eq!(view_tree_next(&t, p), Some(v)),
            None => assert_eq!(v, root),
        }
    }
}

#[test]
fn single_view_tree() {
    let t = ViewTree::new();
    let root = t.root();
    assert_eq!(view_tree_next(&t, root), None);
    assert_eq!(view_tree_previous(&t, root, root), None);
    assert_eq!(view_nested_last_child(&t, root), root);
    assert_eq!(view_next_sibling(&t, root), None);
    assert!(scroll_to(&t, root, root));
}

#[test]
fn scroll_to_finds_views_below() {
    let (t, [root, a, b, c, d, e]) = sample();
    for v in [root, a, b, c, d, e] {
        assert!(scroll_to(&t, root, v));
    }
    assert!(scroll_to(&t, a, e));
    assert!(scroll_to(&t, d, e));
    assert!(scroll_to(&t, b, b));
    assert!(!scroll_to(&t, b, e));
    assert!(!scroll_to(&t, c, d));
    assert!(!scroll_to(&t, e, d));
    assert!(!scroll_to(&t, a, root));
}

#[test]
fn scroll_to_a_target_outside_the_tree_is_not_found() {
    let (t, [root, a, _b, _c, _d, e]) = sample();
    assert!(!scroll_to(&t, root, ViewId(6)));
    assert!(!scroll_to(&t, a, ViewId(99)));
    assert!(!scroll_to(&t, e, ViewId(usize::MAX)));
}

#[test]
fn tree_next_and_previous_follow_the_whole_tree_order() {
    let (t, [root, a, b, c, d, e]) = sample();
    let order = [root, a, c, d, e, b];
    for k in 0..order.len() {
        let next = if k + 1 < order.len() { Some(order[k + 1]) } else { None };
        assert_eq!(view_tree_next(&t, order[k]), next);
        let prev = if k > 0 { Some(order[k - 1]) } else { None };
        assert_eq!(view_tree_previous(&t, root, order[k]), prev);
    }
}
