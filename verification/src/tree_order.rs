//! Laws of tree order: stepping forward and then back (or back and then
//! forward) returns to the view one started from, and the order begins at
//! the root and ends at its deepest last child.
use vstd::prelude::*;
use crate::tree::{ViewId, TreeModel, root_id};
use crate::navigation::{
    next_sibling,
    previous_sibling,
    nested_last_child,
    next_of_ancestors,
    tree_next,
    tree_previous,
};

verus! {

/// A view with a parent sits at exactly one position among its parent's children.
pub(crate) proof fn lemma_position_among_siblings(t: TreeModel, x: ViewId)
    requires
        t.wf(),
        t.valid(x),
        t.parent(x) is Some,
    ensures
        ({
            let cs = t.children_of(t.parent(x)->0);
            let pos = cs.index_of(x);
            &&& 0 <= pos < cs.len()
            &&& cs[pos] == x
            &&& forall|i: int| 0 <= i < cs.len() && cs[i] == x ==> i == pos
        }),
{
    let p = t.parent(x)->0;
    let cs = t.children_of(p);
    assert(cs.contains(x));
    assert(cs.no_duplicates());
}

/// The deepest last child of a view exists in the tree and has no children.
pub proof fn lemma_nested_last_child_is_leaf(t: TreeModel, v: ViewId)
    requires
        t.wf(),
        t.valid(v),
    ensures
        t.valid(nested_last_child(t, v)),
        t.children_of(nested_last_child(t, v)).len() == 0,
    decreases t.len() - t.depth_of(v),
{
    let cs = t.children_of(v);
    if cs.len() > 0 {
        assert(t.parent(cs[cs.len() - 1]) == Some(v));
        lemma_nested_last_child_is_leaf(t, cs.last());
    }
}

/// A child has no next sibling exactly when it is the last child.
proof fn lemma_no_next_sibling_is_last(t: TreeModel, x: ViewId)
    requires
        t.wf(),
        t.valid(x),
        t.parent(x) is Some,
    ensures
        next_sibling(t, x) is None <==> x == t.children_of(t.parent(x)->0).last(),
{
    lemma_position_among_siblings(t, x);
}

/// A child has no previous sibling exactly when it is the first child.
proof fn lemma_no_previous_sibling_is_first(t: TreeModel, x: ViewId)
    requires
        t.wf(),
        t.valid(x),
        t.parent(x) is Some,
    ensures
        previous_sibling(t, x) is None <==> x == t.children_of(t.parent(x)->0)[0],
{
    lemma_position_among_siblings(t, x);
}

/// Stepping to the next sibling and then to the previous one returns to the
/// view one started from, and the other way round.
pub proof fn sibling_steps_undo_each_other(t: TreeModel, x: ViewId, y: ViewId)
    requires
        t.wf(),
        t.valid(x),
        t.valid(y),
    ensures
        next_sibling(t, x) == Some(y) <==> previous_sibling(t, y) == Some(x),
{
    if next_sibling(t, x) == Some(y) {
        lemma_position_among_siblings(t, x);
        let p = t.parent(x)->0;
        let cs = t.children_of(p);
        let pos = cs.index_of(x);
        assert(cs[pos + 1] == y);
        assert(t.parent(cs[pos + 1]) == Some(p));
        lemma_position_among_siblings(t, y);
    }
    if previous_sibling(t, y) == Some(x) {
        lemma_position_among_siblings(t, y);
        let p = t.parent(y)->0;
        let cs = t.children_of(p);
        let pos = cs.index_of(y);
        assert(cs[pos - 1] == x);
        assert(t.parent(cs[pos - 1]) == Some(p));
        lemma_position_among_siblings(t, x);
    }
}

/// Climbing for a next sibling from the deepest last child of `a` finds the
/// same view as climbing from `a`.
pub(crate) proof fn lemma_climb_from_nested_last_child(t: TreeModel, a: ViewId)
    requires
        t.wf(),
        t.valid(a),
    ensures
        next_of_ancestors(t, nested_last_child(t, a)) == next_of_ancestors(t, a),
    decreases t.len() - t.depth_of(a),
{
    let cs = t.children_of(a);
    if cs.len() > 0 {
        let c = cs.last();
        assert(t.parent(cs[cs.len() - 1]) == Some(a));
        lemma_climb_from_nested_last_child(t, c);
        lemma_no_next_sibling_is_last(t, c);
    }
}

/// When the climb from `z` finds `y`, the view before `y` in tree order is
/// the deepest last child of `z`.
proof fn lemma_climb_found_then_previous(t: TreeModel, z: ViewId, y: ViewId)
    requires
        t.wf(),
        t.valid(z),
        next_of_ancestors(t, z) == Some(y),
    ensures
        t.valid(y),
        tree_previous(t, root_id(), y) == Some(nested_last_child(t, z)),
    decreases t.depth_of(z),
{
    if next_sibling(t, z) == Some(y) {
        lemma_position_among_siblings(t, z);
        let cs = t.children_of(t.parent(z)->0);
        let pos = cs.index_of(z);
        assert(t.parent(cs[pos + 1]) == t.parent(z));
        sibling_steps_undo_each_other(t, z, y);
    } else {
        let p = t.parent(z)->0;
        lemma_climb_found_then_previous(t, p, y);
        lemma_no_next_sibling_is_last(t, z);
        let cs = t.children_of(p);
        assert(cs.len() > 0);
    }
}

/// When the climb from `z` finds nothing, `z` lies on the chain of last
/// children that starts at the root.
proof fn lemma_climb_none_on_last_chain(t: TreeModel, z: ViewId)
    requires
        t.wf(),
        t.valid(z),
        next_of_ancestors(t, z) is None,
    ensures
        nested_last_child(t, z) == nested_last_child(t, root_id()),
    decreases t.depth_of(z),
{
    match t.parent(z) {
        None => {},
        Some(p) => {
            lemma_climb_none_on_last_chain(t, p);
            lemma_no_next_sibling_is_last(t, z);
            assert(t.children_of(p).len() > 0);
        },
    }
}

/// Tree order is undone step by step: the view before the view after `x`
/// is `x`; and a view that has no view after it is the last one in tree
/// order, the deepest last child of the root.
pub proof fn tree_previous_undoes_tree_next(t: TreeModel, x: ViewId)
    requires
        t.wf(),
        t.valid(x),
    ensures
        tree_next(t, x) matches Some(y) ==> t.valid(y) && tree_previous(t, root_id(), y) == Some(
            x,
        ),
        tree_next(t, x) is None ==> x == nested_last_child(t, root_id()),
{
    let cs = t.children_of(x);
    if cs.len() > 0 {
        let c = cs[0];
        assert(t.parent(cs[0]) == Some(x));
        lemma_no_previous_sibling_is_first(t, c);
    } else {
        match next_of_ancestors(t, x) {
            Some(y) => {
                lemma_climb_found_then_previous(t, x, y);
            },
            None => {
                lemma_climb_none_on_last_chain(t, x);
            },
        }
    }
}

/// Tree order is undone step by step the other way too: the view after the
/// view before `y` is `y`; and only the root has no view before it.
pub proof fn tree_next_undoes_tree_previous(t: TreeModel, y: ViewId)
    requires
        t.wf(),
        t.valid(y),
    ensures
        tree_previous(t, root_id(), y) matches Some(x) ==> t.valid(x) && tree_next(t, x) == Some(
            y,
        ),
        tree_previous(t, root_id(), y) is None <==> y == root_id(),
{
    match previous_sibling(t, y) {
        Some(p) => {
            lemma_position_among_siblings(t, y);
            let cs = t.children_of(t.parent(y)->0);
            let pos = cs.index_of(y);
            assert(t.parent(cs[pos - 1]) == t.parent(y));
            sibling_steps_undo_each_other(t, p, y);
            lemma_nested_last_child_is_leaf(t, p);
            lemma_climb_from_nested_last_child(t, p);
        },
        None => {
            if y != root_id() {
                lemma_no_previous_sibling_is_first(t, y);
            }
        },
    }
}

/// Tree order starts at the root and ends at the deepest last child of the
/// root: nothing comes before the first and nothing after the last.
pub proof fn tree_order_ends(t: TreeModel)
    requires
        t.wf(),
    ensures
        tree_previous(t, root_id(), root_id()) is None,
        tree_next(t, nested_last_child(t, root_id())) is None,
{
    assert(t.valid(root_id()));
    lemma_nested_last_child_is_leaf(t, root_id());
    lemma_climb_from_nested_last_child(t, root_id());
}

} // verus!
