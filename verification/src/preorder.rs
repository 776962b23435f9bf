//! The views of a subtree listed in tree order: the view itself, then the
//! views below each of its children in turn.
use vstd::prelude::*;
use vstd::seq_lib::lemma_no_dup_in_concat;
use crate::tree::{ViewId, TreeModel};
use crate::navigation::{nested_last_child, tree_next, next_sibling};
use crate::tree_order::{
    lemma_nested_last_child_is_leaf,
    lemma_climb_from_nested_last_child,
    lemma_position_among_siblings,
};
use crate::scroll::{in_subtree, lemma_below_child_is_below_parent, lemma_below_is_below_a_child};

verus! {

/// The views of the subtree of `v` in tree order.
pub open spec fn preorder(t: TreeModel, v: ViewId) -> Seq<ViewId>
    decreases t.len() - t.depth_of(v), t.children_of(v).len() + 1,
    when t.wf() && t.valid(v)
{
    seq![v] + children_preorder(t, v, 0)
}

/// The views below the children of `v`, from the `i`-th child on, in tree order.
pub open spec fn children_preorder(t: TreeModel, v: ViewId, i: int) -> Seq<ViewId>
    decreases t.len() - t.depth_of(v), t.children_of(v).len() - i,
    when t.wf() && t.valid(v) && 0 <= i
{
    let cs = t.children_of(v);
    if i >= cs.len() {
        seq![]
    } else {
        proof {
            assert(t.parent(cs[i]) == Some(v));
        }
        preorder(t, cs[i]) + children_preorder(t, v, i + 1)
    }
}

/// A view below `a` is at least as deep as `a`, and as deep only if it is `a`.
pub(crate) proof fn lemma_subtree_depth(t: TreeModel, a: ViewId, x: ViewId)
    requires
        t.wf(),
        t.valid(x),
        in_subtree(t, a, x),
    ensures
        t.depth_of(x) >= t.depth_of(a),
        t.depth_of(x) == t.depth_of(a) ==> x == a,
    decreases t.depth_of(x),
{
    if x != a {
        lemma_subtree_depth(t, a, t.parent(x)->0);
    }
}

/// A view has at most one ancestor at each depth.
pub(crate) proof fn lemma_one_ancestor_per_depth(t: TreeModel, a: ViewId, b: ViewId, x: ViewId)
    requires
        t.wf(),
        t.valid(x),
        in_subtree(t, a, x),
        in_subtree(t, b, x),
        t.depth_of(a) == t.depth_of(b),
    ensures
        a == b,
    decreases t.depth_of(x),
{
    if x == a || x == b {
        lemma_subtree_depth(t, a, x);
        lemma_subtree_depth(t, b, x);
    } else {
        lemma_one_ancestor_per_depth(t, a, b, t.parent(x)->0);
    }
}

/// The tree order of a subtree starts at its top view and ends at the
/// deepest last child; it holds each view of the subtree once; and each
/// view in it is followed by the view after it in tree order.
pub proof fn lemma_preorder_shape(t: TreeModel, v: ViewId)
    requires
        t.wf(),
        t.valid(v),
    ensures
        preorder(t, v).len() >= 1,
        preorder(t, v)[0] == v,
        preorder(t, v).last() == nested_last_child(t, v),
        preorder(t, v).no_duplicates(),
        forall|k: int|
            0 <= k < preorder(t, v).len() ==> t.valid(#[trigger] preorder(t, v)[k]) && in_subtree(
                t,
                v,
                preorder(t, v)[k],
            ),
        forall|k: int|
            0 <= k < preorder(t, v).len() - 1 ==> tree_next(t, #[trigger] preorder(t, v)[k])
                == Some(preorder(t, v)[k + 1]),
    decreases t.len() - t.depth_of(v), t.children_of(v).len() + 1,
{
    let cs = t.children_of(v);
    lemma_children_preorder_shape(t, v, 0);
    let c = children_preorder(t, v, 0);
    let s = preorder(t, v);
    assert(s == seq![v] + c);
    assert(in_subtree(t, v, v));
    assert forall|k: int| 0 <= k < s.len() implies t.valid(#[trigger] s[k]) && in_subtree(
        t,
        v,
        s[k],
    ) by {
        if k > 0 {
            assert(s[k] == c[k - 1]);
            let j = choose|j: int| 0 <= j < cs.len() && in_subtree(t, cs[j], c[k - 1]);
            assert(t.parent(cs[j]) == Some(v));
            lemma_below_child_is_below_parent(t, v, cs[j], c[k - 1]);
        }
    }
    assert forall|k: int| 0 <= k < s.len() - 1 implies tree_next(t, #[trigger] s[k]) == Some(
        s[k + 1],
    ) by {
        if k == 0 {
            assert(s[1] == c[0]);
        } else {
            assert(s[k] == c[k - 1]);
            assert(s[k + 1] == c[k]);
        }
    }
    assert forall|k: int| 0 <= k < c.len() implies c[k] != v by {
        let j = choose|j: int| 0 <= j < cs.len() && in_subtree(t, #[trigger] cs[j], c[k]);
        assert(t.parent(cs[j]) == Some(v));
        lemma_subtree_depth(t, cs[j], c[k]);
    }
    lemma_no_dup_in_concat(seq![v], c);
    if cs.len() == 0 {
        assert(s =~= seq![v]);
    } else {
        assert(s.last() == c.last());
        assert(t.parent(cs[cs.len() - 1]) == Some(v));
    }
}

/// The tree order of the subtrees of the children of `v`, from the `i`-th
/// on: it starts at the `i`-th child, ends at the deepest last child of the
/// last child, holds each view once, each view lies below one of those
/// children, and each view is followed by the view after it in tree order.
pub proof fn lemma_children_preorder_shape(t: TreeModel, v: ViewId, i: int)
    requires
        t.wf(),
        t.valid(v),
        0 <= i <= t.children_of(v).len(),
    ensures
        i == t.children_of(v).len() ==> children_preorder(t, v, i).len() == 0,
        i < t.children_of(v).len() ==> {
            &&& children_preorder(t, v, i).len() >= 1
            &&& children_preorder(t, v, i)[0] == t.children_of(v)[i]
            &&& children_preorder(t, v, i).last() == nested_last_child(
                t,
                t.children_of(v).last(),
            )
        },
        children_preorder(t, v, i).no_duplicates(),
        forall|k: int|
            0 <= k < children_preorder(t, v, i).len() ==> t.valid(
                #[trigger] children_preorder(t, v, i)[k],
            ) && exists|j: int|
                i <= j < t.children_of(v).len() && in_subtree(
                    t,
                    #[trigger] t.children_of(v)[j],
                    children_preorder(t, v, i)[k],
                ),
        forall|k: int|
            0 <= k < children_preorder(t, v, i).len() - 1 ==> tree_next(
                t,
                #[trigger] children_preorder(t, v, i)[k],
            ) == Some(children_preorder(t, v, i)[k + 1]),
    decreases t.len() - t.depth_of(v), t.children_of(v).len() - i,
{
    let cs = t.children_of(v);
    if i < cs.len() {
        let ci = cs[i];
        assert(t.parent(cs[i]) == Some(v));
        lemma_preorder_shape(t, ci);
        lemma_children_preorder_shape(t, v, i + 1);
        let p = preorder(t, ci);
        let r = children_preorder(t, v, i + 1);
        let c = children_preorder(t, v, i);
        assert(c == p + r);
        assert forall|k: int| 0 <= k < c.len() implies t.valid(#[trigger] c[k]) && exists|j: int|
            i <= j < cs.len() && in_subtree(t, #[trigger] cs[j], c[k]) by {
            if k < p.len() {
                assert(c[k] == p[k]);
                assert(in_subtree(t, cs[i], c[k]));
            } else {
                assert(c[k] == r[k - p.len()]);
                let j = choose|j: int| i + 1 <= j < cs.len() && in_subtree(t, #[trigger] cs[j], r[k - p.len()]);
                assert(in_subtree(t, cs[j], c[k]));
            }
        }
        assert forall|a: int, b: int| 0 <= a < p.len() && 0 <= b < r.len() implies p[a] != r[b] by {
            let j = choose|j: int| i + 1 <= j < cs.len() && in_subtree(t, #[trigger] cs[j], r[b]);
            assert(t.parent(cs[j]) == Some(v));
            if p[a] == r[b] {
                lemma_one_ancestor_per_depth(t, cs[i], cs[j], p[a]);
                assert(cs.no_duplicates());
            }
        }
        lemma_no_dup_in_concat(p, r);
        if i + 1 < cs.len() {
            // the last view below the i-th child is followed by the next child
            lemma_nested_last_child_is_leaf(t, ci);
            lemma_climb_from_nested_last_child(t, ci);
            lemma_position_among_siblings(t, ci);
            assert(cs.index_of(ci) == i);
            assert(next_sibling(t, ci) == Some(cs[i + 1]));
            assert(tree_next(t, p.last()) == Some(r[0]));
        }
        assert forall|k: int| 0 <= k < c.len() - 1 implies tree_next(t, #[trigger] c[k]) == Some(
            c[k + 1],
        ) by {
            if k < p.len() - 1 {
                assert(c[k] == p[k] && c[k + 1] == p[k + 1]);
            } else if k == p.len() - 1 {
                assert(c[k] == p.last());
                assert(c[k + 1] == r[0]);
            } else {
                assert(c[k] == r[k - p.len()]);
                assert(c[k + 1] == r[k + 1 - p.len()]);
            }
        }
        if i + 1 == cs.len() {
            assert(c =~= p);
        } else {
            assert(c.last() == r.last());
        }
    }
}

/// Every view below `v` appears in the tree order of `v`'s subtree.
pub proof fn lemma_preorder_covers_subtree(t: TreeModel, v: ViewId, x: ViewId)
    requires
        t.wf(),
        t.valid(v),
        t.valid(x),
        in_subtree(t, v, x),
    ensures
        preorder(t, v).contains(x),
    decreases t.len() - t.depth_of(v),
{
    lemma_preorder_shape(t, v);
    if x != v {
        lemma_below_is_below_a_child(t, v, x);
        let cs = t.children_of(v);
        let j = choose|j: int| 0 <= j < cs.len() && in_subtree(t, #[trigger] cs[j], x);
        assert(t.parent(cs[j]) == Some(v));
        lemma_preorder_covers_subtree(t, cs[j], x);
        lemma_children_preorder_contains(t, v, 0, j, x);
        let c = children_preorder(t, v, 0);
        let k = choose|k: int| 0 <= k < c.len() && c[k] == x;
        assert(preorder(t, v)[k + 1] == x);
    }
}

/// The tree order of the children from the `i`-th on holds what the tree
/// order of each of those children holds.
proof fn lemma_children_preorder_contains(t: TreeModel, v: ViewId, i: int, j: int, x: ViewId)
    requires
        t.wf(),
        t.valid(v),
        0 <= i <= j < t.children_of(v).len(),
        preorder(t, t.children_of(v)[j]).contains(x),
    ensures
        children_preorder(t, v, i).contains(x),
    decreases j - i,
{
    let cs = t.children_of(v);
    assert(t.parent(cs[i]) == Some(v));
    let p = preorder(t, cs[i]);
    let r = children_preorder(t, v, i + 1);
    let c = children_preorder(t, v, i);
    assert(c == p + r);
    if i == j {
        let k = choose|k: int| 0 <= k < p.len() && p[k] == x;
        assert(c[k] == x);
    } else {
        lemma_children_preorder_contains(t, v, i + 1, j, x);
        let k = choose|k: int| 0 <= k < r.len() && r[k] == x;
        assert(c[p.len() + k] == x);
    }
}

} // verus!
