//! Finding the view that contains a scroll target.
use vstd::prelude::*;
use crate::tree::{ViewId, TreeModel, ViewTree, root_id};

verus! {

/// `target` is `id` or lies below it.
pub open spec fn in_subtree(t: TreeModel, id: ViewId, target: ViewId) -> bool
    decreases t.depth_of(target),
    when t.wf() && t.valid(target)
{
    target == id || match t.parent(target) {
        None => false,
        Some(p) => in_subtree(t, id, p),
    }
}

/// What lies below a child lies below its parent.
pub(crate) proof fn lemma_below_child_is_below_parent(t: TreeModel, id: ViewId, c: ViewId, target: ViewId)
    requires
        t.wf(),
        t.valid(c),
        t.valid(target),
        t.parent(c) == Some(id),
        in_subtree(t, c, target),
    ensures
        in_subtree(t, id, target),
    decreases t.depth_of(target),
{
    if target != c {
        let p = t.parent(target)->0;
        lemma_below_child_is_below_parent(t, id, c, p);
    } else {
        assert(t.valid(id));
        assert(in_subtree(t, id, id));
    }
}

/// A view strictly below `id` lies below one of its children.
pub(crate) proof fn lemma_below_is_below_a_child(t: TreeModel, id: ViewId, target: ViewId)
    requires
        t.wf(),
        t.valid(id),
        t.valid(target),
        target != id,
        in_subtree(t, id, target),
    ensures
        exists|j: int|
            0 <= j < t.children_of(id).len() && in_subtree(t, #[trigger] t.children_of(id)[j], target),
    decreases t.depth_of(target),
{
    let p = t.parent(target)->0;
    if p == id {
        assert(t.children_of(id).contains(target));
        let j = choose|j: int| 0 <= j < t.children_of(id).len() && t.children_of(id)[j] == target;
        assert(in_subtree(t, t.children_of(id)[j], target));
    } else {
        lemma_below_is_below_a_child(t, id, p);
        let j = choose|j: int|
            0 <= j < t.children_of(id).len() && in_subtree(t, #[trigger] t.children_of(id)[j], p);
        assert(t.valid(t.children_of(id)[j]));
        assert(in_subtree(t, t.children_of(id)[j], target));
    }
}

/// Every view of the tree lies below the root.
pub proof fn every_view_is_below_the_root(t: TreeModel, target: ViewId)
    requires
        t.wf(),
        t.valid(target),
    ensures
        in_subtree(t, root_id(), target),
    decreases t.depth_of(target),
{
    if target != root_id() {
        every_view_is_below_the_root(t, t.parent(target)->0);
    }
}

/// Scrolls the view `id` and all direct and indirect children to bring the
/// `target` view to be visible. Returns true if this view contains or is
/// the target. A target that is not a view of the tree is not found.
pub fn scroll_to(tree: &ViewTree, id: ViewId, target: ViewId) -> (found: bool)
    requires
        tree.wf(),
        tree@.valid(id),
    ensures
        found == (tree@.valid(target) && in_subtree(tree@, id, target)),
    decreases tree@.len() - tree@.depth_of(id),
{
    if id == target {
        return true;
    }
    let mut found = false;
    let children = tree.children(id);
    let mut i: usize = 0;
    while i < children.len()
        invariant
            tree.wf(),
            tree@.valid(id),
            children@ == tree@.children_of(id),
            i <= children@.len(),
            found == (tree@.valid(target) && exists|j: int|
                0 <= j < i && in_subtree(tree@, #[trigger] children@[j], target)),
        decreases children@.len() - i,
    {
        proof {
            assert(tree@.parent(children@[i as int]) == Some(id));
        }
        let in_child = scroll_to(tree, children[i], target);
        proof {
            if in_child {
                assert(in_subtree(tree@, children@[i as int], target));
            }
            if found {
                let j = choose|j: int| 0 <= j < i && in_subtree(tree@, #[trigger] children@[j], target);
                assert(0 <= j < i + 1 && in_subtree(tree@, children@[j], target));
            }
        }
        if in_child {
            found = true;
        }
        i = i + 1;
    }
    proof {
        if !tree@.valid(target) {
        } else if found {
            let j = choose|j: int|
                0 <= j < children@.len() && in_subtree(tree@, #[trigger] children@[j], target);
            assert(tree@.parent(children@[j]) == Some(id));
            lemma_below_child_is_below_parent(tree@, id, children@[j], target);
        } else if in_subtree(tree@, id, target) {
            lemma_below_is_below_a_child(tree@, id, target);
        }
    }
    found
}

} // verus!
