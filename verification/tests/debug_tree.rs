use floem_view::navigation::{view_next_sibling, view_tree_next};
use floem_view::debug_tree::{debug_row_prefix, view_debug_tree_rows};
use floem_view::tree::ViewTree;

#[test]
fn rows_in_tree_order_with_levels() {
    // root
    // ├── a
    // │   ├── c
    // │   └── d
    // └── b
    let mut t = ViewTree::new();
    let root = t.root();
    let a = t.add_child(root);
    let b = t.add_child(root);
    let c = t.add_child(a);
    let d = t.add_child(a);
    let rows = view_debug_tree_rows(&t, root);
    assert_eq!(
        rows,
        vec![
            (root, vec![]),
            (a, vec![true]),
            (c, vec![true, true]),
            (d, vec![true, false]),
            (b, vec![false]),
        ]
    );
    let prefixes: Vec<String> = rows.iter().map(|(_, l)| debug_row_prefix(l)).collect();
    assert_eq!(
        prefixes,
        vec![
            "".to_string(),
            "├── ".to_string(),
            "│   ├── ".to_string(),
            "│   └── ".to_string(),
            "└── ".to_string(),
        ]
    );
}

#[test]
fn rows_of_a_subtree() {
    let mut t = ViewTree::new();
    let root = t.root();
    let a = t.add_child(root);
    let _b = t.add_child(root);
    let c = t.add_child(a);
    let e = t.add_child(c);
    let rows = view_debug_tree_rows(&t, c);
    assert_eq!(rows, vec![(c, vec![]), (e, vec![false])]);
}

#[test]
fn prefix_of_deep_levels() {
    assert_eq!(debug_row_prefix(&vec![false, true, false]), "    │   └── ");
    assert_eq!(debug_row_prefix(&vec![true]), "├── ");
    assert_eq!(debug_row_prefix(&vec![]), "");
}

#[test]
fn rows_list_views_in_tab_order() {
    let mut t = ViewTree::new();
    let root = t.root();
    let a = t.add_child(root);
    let b = t.add_child(a);
    let c = t.add_child(root);
    let _d = t.add_child(b);
    let _e = t.add_child(c);
    let _f = t.add_child(a);
    let rows = view_debug_tree_rows(&t, root);
    let mut order = vec![root];
    let mut cur = root;
    while let Some(n) = view_tree_next(&t, cur) {
        order.push(n);
        cur = n;
    }
    let listed: Vec<_> = rows.iter().map(|(v, _)| *v).collect();
    assert_eq!(listed, order);
    assert_eq!(listed.len(), t.len());
}

#[test]
fn row_flags_tell_whether_ancestors_have_later_siblings() {
    let mut t = ViewTree::new();
    let root = t.root();
    let a = t.add_child(root);
    let b = t.add_child(a);
    let c = t.add_child(root);
    let _d = t.add_child(b);
    let _e = t.add_child(c);
    let _f = t.add_child(a);
    for (v, lines) in view_debug_tree_rows(&t, root) {
        // the chain of ancestors from just below the root down to v
        let mut chain = vec![];
        let mut x = v;
        while let Some(p) = t.parent(x) {
            chain.push(x);
            x = p;
        }
        chain.reverse();
        assert_eq!(lines.len(), chain.len());
        for (flag, anc) in lines.iter().zip(chain.iter()) {
            assert_eq!(*flag, view_next_sibling(&t, *anc).is_some());
        }
    }
}
