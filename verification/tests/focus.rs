use floem_view::focus::{view_tab_navigation, FocusState};
use floem_view::tree::{ViewId, ViewTree};

/// root
/// ├── a
/// │   └── c
/// └── b
fn sample() -> (ViewTree, [ViewId; 4]) {
    let mut t = ViewTree::new();
    let root = t.root();
    let a = t.add_child(root);
    let b = t.add_child(root);
    let c = t.add_child(a);
    (t, [root, a, b, c])
}

#[test]
fn focus_state_starts_empty() {
    let s = FocusState::new();
    assert_eq!(s.focus, None);
    assert_eq!(s.prev_focus, None);
    assert!(!s.keyboard_navigation);
    assert!(!s.can_focus(ViewId(0)));
}

#[test]
fn clear_and_update_focus() {
    let mut s = FocusState::new();
    s.update_focus(ViewId(3), false);
    assert_eq!(s.focus, Some(ViewId(3)));
    assert_eq!(s.prev_focus, None);
    s.update_focus(ViewId(1), true);
    assert_eq!(s.focus, Some(ViewId(1)));
    assert_eq!(s.prev_focus, Some(ViewId(3)));
    assert!(s.keyboard_navigation);
    s.clear_focus();
    assert_eq!(s.focus, None);
    assert_eq!(s.prev_focus, Some(ViewId(1)));
    s.clear_focus();
    assert_eq!(s.prev_focus, Some(ViewId(1)));
}

#[test]
fn tab_moves_to_next_focusable_in_tree_order() {
    let (t, [root, a, b, c]) = sample();
    let mut s = FocusState::new();
    s.focusable = vec![b, c];
    view_tab_navigation(&t, root, &mut s, false);
    assert_eq!(s.focus, Some(c));
    assert!(s.keyboard_navigation);
    view_tab_navigation(&t, root, &mut s, false);
    assert_eq!(s.focus, Some(b));
    assert_eq!(s.prev_focus, Some(c));
    // wraps around past the root to c again
    view_tab_navigation(&t, root, &mut s, false);
    assert_eq!(s.focus, Some(c));
    let _ = a;
}

#[test]
fn shift_tab_moves_backwards_and_wraps() {
    let (t, [root, a, b, c]) = sample();
    let mut s = FocusState::new();
    s.focusable = vec![a, c];
    // starts at the root: previous of the root wraps to the last view, b, which
    // cannot take the focus, then c
    view_tab_navigation(&t, root, &mut s, true);
    assert_eq!(s.focus, Some(c));
    view_tab_navigation(&t, root, &mut s, true);
    assert_eq!(s.focus, Some(a));
    view_tab_navigation(&t, root, &mut s, true);
    assert_eq!(s.focus, Some(c));
    let _ = b;
}

#[test]
fn tab_then_shift_tab_returns_when_all_can_focus() {
    let (t, views) = sample();
    let root = views[0];
    for v in views {
        let mut s = FocusState::new();
        s.focusable = views.to_vec();
        s.focus = Some(v);
        view_tab_navigation(&t, root, &mut s, false);
        assert_ne!(s.focus, Some(v));
        view_tab_navigation(&t, root, &mut s, true);
        assert_eq!(s.focus, Some(v));
    }
}

#[test]
fn tab_with_no_focusable_view_comes_back_to_start() {
    let (t, [root, a, _b, _c]) = sample();
    let mut s = FocusState::new();
    s.focus = Some(a);
    view_tab_navigation(&t, root, &mut s, false);
    assert_eq!(s.focus, Some(a));
    assert_eq!(s.prev_focus, Some(a));
    view_tab_navigation(&t, root, &mut s, true);
    assert_eq!(s.focus, Some(a));
}

#[test]
fn tab_starts_from_previous_focus() {
    let (t, [root, a, b, c]) = sample();
    let mut s = FocusState::new();
    s.focusable = vec![root, a, b, c];
    s.prev_focus = Some(c);
    view_tab_navigation(&t, root, &mut s, false);
    assert_eq!(s.focus, Some(b));
    assert_eq!(s.prev_focus, Some(c));
}

#[test]
fn tab_on_single_view_tree() {
    let t = ViewTree::new();
    let root = t.root();
    let mut s = FocusState::new();
    view_tab_navigation(&t, root, &mut s, false);
    assert_eq!(s.focus, Some(root));
    s.focusable = vec![root];
    view_tab_navigation(&t, root, &mut s, true);
    assert_eq!(s.focus, Some(root));
}

#[test]
fn tab_finds_the_only_focusable_view_from_anywhere() {
    let mut t = ViewTree::new();
    let root = t.root();
    let a = t.add_child(root);
    let b = t.add_child(a);
    let c = t.add_child(root);
    let d = t.add_child(c);
    let views = [root, a, b, c, d];
    for target in views {
        for start in views {
            for backwards in [false, true] {
                let mut s = FocusState::new();
                s.focusable = vec![target];
                s.focus = Some(start);
                view_tab_navigation(&t, root, &mut s, backwards);
                assert_eq!(s.focus, Some(target));
            }
        }
    }
}
