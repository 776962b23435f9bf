//! Walking the view tree in tree order: siblings, the deepest last child,
//! and the next and previous view in tree order.
use vstd::prelude::*;
use crate::tree::{ViewId, TreeModel, ViewTree, root_id};
use crate::preorder::{preorder, lemma_preorder_shape};
use crate::tree_order::{tree_order_ends, tree_previous_undoes_tree_next};

verus! {

/// The view after `id` among the children of its parent.
pub open spec fn next_sibling(t: TreeModel, id: ViewId) -> Option<ViewId> {
    match t.parent(id) {
        None => None,
        Some(p) => {
            let cs = t.children_of(p);
            let pos = cs.index_of(id);
            if pos + 1 < cs.len() {
                Some(cs[pos + 1])
            } else {
                None
            }
        },
    }
}

/// The view before `id` among the children of its parent.
pub open spec fn previous_sibling(t: TreeModel, id: ViewId) -> Option<ViewId> {
    match t.parent(id) {
        None => None,
        Some(p) => {
            let cs = t.children_of(p);
            let pos = cs.index_of(id);
            if pos > 0 {
                Some(cs[pos - 1])
            } else {
                None
            }
        },
    }
}

/// Follows last children down from `v` until a view without children.
pub open spec fn nested_last_child(t: TreeModel, v: ViewId) -> ViewId
    decreases t.len() - t.depth_of(v),
    when t.wf() && t.valid(v)
{
    let cs = t.children_of(v);
    if cs.len() == 0 {
        v
    } else {
        proof {
            assert(t.parent(cs[cs.len() - 1]) == Some(v));
        }
        nested_last_child(t, cs.last())
    }
}

/// The next sibling of `id` or of its nearest ancestor that has one.
pub open spec fn next_of_ancestors(t: TreeModel, id: ViewId) -> Option<ViewId>
    decreases t.depth_of(id),
    when t.wf() && t.valid(id)
{
    match next_sibling(t, id) {
        Some(s) => Some(s),
        None => match t.parent(id) {
            None => None,
            Some(p) => next_of_ancestors(t, p),
        },
    }
}

/// The view after `id` in tree order: its first child, else the next
/// sibling of `id` or of its nearest ancestor that has one.
pub open spec fn tree_next(t: TreeModel, id: ViewId) -> Option<ViewId> {
    if t.children_of(id).len() > 0 {
        Some(t.children_of(id)[0])
    } else {
        next_of_ancestors(t, id)
    }
}

/// The view before `id` in tree order: the deepest last child of its
/// previous sibling, else its parent; `None` when `id` is `root_view`.
pub open spec fn tree_previous(t: TreeModel, root_view: ViewId, id: ViewId) -> Option<ViewId> {
    match previous_sibling(t, id) {
        Some(p) => Some(nested_last_child(t, p)),
        None => if root_view != id {
            Some(
                match t.parent(id) {
                    Some(p) => p,
                    None => nested_last_child(t, root_view),
                },
            )
        } else {
            None
        },
    }
}

/// The first position of `id` in `ids`.
fn position_of(ids: &Vec<ViewId>, id: ViewId) -> (r: Option<usize>)
    ensures
        match r {
            Some(i) => i < ids@.len() && ids@[i as int] == id && forall|j: int|
                0 <= j < i ==> ids@[j] != id,
            None => !ids@.contains(id),
        },
{
    let mut i: usize = 0;
    while i < ids.len()
        invariant
            i <= ids@.len(),
            forall|j: int| 0 <= j < i ==> ids@[j] != id,
        decreases ids@.len() - i,
    {
        if ids[i] == id {
            return Some(i);
        }
        i = i + 1;
    }
    None
}

/// In a list without repeats, the position found is the index of the view.
proof fn lemma_position_is_index_of(s: Seq<ViewId>, id: ViewId, i: int)
    requires
        s.no_duplicates(),
        0 <= i < s.len(),
        s[i] == id,
    ensures
        s.index_of(id) == i,
{
    assert(s.contains(id));
    let k = s.index_of(id);
    assert(0 <= k < s.len() && s[k] == id);
}

/// Get the id of the view after this one (but with the same parent and level of nesting).
/// The view after the first place where the parent lists `id`; `None` for
/// the root, for the last child, and for a view that its parent does not list.
pub fn view_next_sibling(tree: &ViewTree, id: ViewId) -> (r: Option<ViewId>)
    requires
        tree.indexed(),
        tree@.valid(id),
    ensures
        tree@.parent(id) is None ==> r is None,
        tree@.parent(id) matches Some(p) && !tree@.children_of(p).contains(id) ==> r is None,
        tree@.parent(id) matches Some(p) ==> forall|i: int|
            0 <= i < tree@.children_of(p).len() && #[trigger] tree@.children_of(p)[i] == id && (forall|j: int|
                0 <= j < i ==> tree@.children_of(p)[j] != id) ==> r == (if i + 1
                < tree@.children_of(p).len() {
                Some(tree@.children_of(p)[i + 1])
            } else {
                None
            }),
        tree@.wf() ==> r == next_sibling(tree@, id),
{
    let parent = match tree.parent(id) {
        None => {
            // We're the root, which has no sibling
            return None;
        },
        Some(p) => p,
    };
    let children = tree.children(parent);
    let pos = match position_of(&children, id) {
        None => {
            return None;
        },
        Some(pos) => pos,
    };
    proof {
        let cs = children@;
        assert forall|i: int|
            0 <= i < cs.len() && cs[i] == id && (forall|j: int| 0 <= j < i ==> cs[j] != id) implies i
            == pos by {
            if i < pos {
            } else if i > pos {
                assert(cs[pos as int] == id);
            }
        }
        if tree.wf() {
            lemma_position_is_index_of(children@, id, pos as int);
        }
    }
    if pos < children.len() - 1 {
        Some(children[pos + 1])
    } else {
        None
    }
}

/// Get the id of the view before this one (but with the same parent and level of nesting).
pub fn view_previous_sibling(tree: &ViewTree, id: ViewId) -> (r: Option<ViewId>)
    requires
        tree.wf(),
        tree@.valid(id),
    ensures
        r == previous_sibling(tree@, id),
{
    let parent = match tree.parent(id) {
        None => {
            // We're the root, which has no sibling
            return None;
        },
        Some(p) => p,
    };
    let children = tree.children(parent);
    proof {
        assert(tree@.children_of(parent).contains(id));
    }
    let pos = position_of(&children, id).unwrap();
    proof {
        lemma_position_is_index_of(children@, id, pos as int);
    }
    if pos > 0 {
        Some(children[pos - 1])
    } else {
        None
    }
}

/// Follows last children down from `view` and returns the view reached
/// that has no children.
pub fn view_nested_last_child(tree: &ViewTree, view: ViewId) -> (r: ViewId)
    requires
        tree.wf(),
        tree@.valid(view),
    ensures
        r == nested_last_child(tree@, view),
{
    let mut last_child = view;
    loop
        invariant
            tree.wf(),
            tree@.valid(last_child),
            nested_last_child(tree@, last_child) == nested_last_child(tree@, view),
        decreases tree@.len() - tree@.depth_of(last_child),
    {
        let mut children = tree.children(last_child);
        match children.pop() {
            Some(new_last_child) => {
                proof {
                    let cs = tree@.children_of(last_child);
                    assert(cs[cs.len() - 1] == new_last_child);
                    assert(tree@.parent(cs[cs.len() - 1]) == Some(last_child));
                }
                last_child = new_last_child;
            },
            None => {
                return last_child;
            },
        }
    }
}

/// Get the next item in the tree, either the first child or the next sibling
/// of this view or of the first parent view.
pub fn view_tree_next(tree: &ViewTree, id: ViewId) -> (r: Option<ViewId>)
    requires
        tree.wf(),
        tree@.valid(id),
    ensures
        r == tree_next(tree@, id),
        // the view after `id` in the tree order of the whole tree, if any
        forall|k: int|
            0 <= k < preorder(tree@, root_id()).len() && #[trigger] preorder(tree@, root_id())[k]
                == id ==> r == (if k + 1 < preorder(tree@, root_id()).len() {
                Some(preorder(tree@, root_id())[k + 1])
            } else {
                None
            }),
{
    proof {
        assert(tree@.valid(root_id()));
        lemma_preorder_shape(tree@, root_id());
        tree_order_ends(tree@);
    }
    let children = tree.children(id);
    let mut result: Option<ViewId> = None;
    if children.len() > 0 {
        result = Some(children[0]);
    } else {
        let mut ancestor = id;
        loop
            invariant_except_break
                tree.wf(),
                tree@.valid(ancestor),
                tree@.children_of(id).len() == 0,
                next_of_ancestors(tree@, ancestor) == tree_next(tree@, id),
                result is None,
            ensures
                result == tree_next(tree@, id),
            decreases tree@.depth_of(ancestor),
        {
            if let Some(next_sibling) = view_next_sibling(tree, ancestor) {
                result = Some(next_sibling);
                break;
            }
            match tree.parent(ancestor) {
                None => {
                    break;
                },
                Some(p) => {
                    ancestor = p;
                },
            }
        }
    }
    result
}

/// Get the previous item in the tree, the deepest last child of the previous
/// sibling of this view or the parent.
pub fn view_tree_previous(tree: &ViewTree, root_view: ViewId, id: ViewId) -> (r: Option<ViewId>)
    requires
        tree.wf(),
        tree@.valid(root_view),
        tree@.valid(id),
    ensures
        r == tree_previous(tree@, root_view, id),
        // from the root, the view before `id` in the tree order of the whole tree, if any
        root_view == root_id() ==> forall|k: int|
            0 <= k < preorder(tree@, root_id()).len() && #[trigger] preorder(tree@, root_id())[k]
                == id ==> r == (if k > 0 {
                Some(preorder(tree@, root_id())[k - 1])
            } else {
                None
            }),
{
    let r = match view_previous_sibling(tree, id) {
        Some(p) => Some(view_nested_last_child(tree, p)),
        None => {
            let up = match tree.parent(id) {
                Some(p) => p,
                None => view_nested_last_child(tree, root_view),
            };
            if root_view != id {
                Some(up)
            } else {
                None
            }
        },
    };
    proof {
        let t = tree@;
        let order = preorder(t, root_id());
        assert(t.valid(root_id()));
        lemma_preorder_shape(t, root_id());
        tree_order_ends(t);
        if root_view == root_id() {
            assert forall|k: int| 0 <= k < order.len() && #[trigger] order[k] == id implies r == (if k
                > 0 {
                Some(order[k - 1])
            } else {
                None
            }) by {
                if k > 0 {
                    assert(tree_next(t, order[k - 1]) == Some(order[k]));
                    tree_previous_undoes_tree_next(t, order[k - 1]);
                }
            }
        }
    }
    r
}

} // verus!
