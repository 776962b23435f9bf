//! The rows of an ascii art drawing of the view tree: each view in tree
//! order with, for each level above it, whether the branch at that level
//! goes on below it.
use vstd::prelude::*;
use crate::tree::{ViewId, TreeModel, ViewTree};
use crate::preorder::{preorder, children_preorder, lemma_subtree_depth};
use crate::navigation::next_sibling;
use crate::scroll::{in_subtree, lemma_below_child_is_below_parent};
use crate::tree_order::lemma_position_among_siblings;

verus! {

/// The rows drawn for `v` and everything below it, when the levels above
/// `v` are `lines`: first `v` itself, then the rows of each child in order,
/// where a child's own level goes on below it unless it is the last child.
pub open spec fn debug_rows(t: TreeModel, v: ViewId, lines: Seq<bool>) -> Seq<(ViewId, Seq<bool>)>
    decreases t.len() - t.depth_of(v), t.children_of(v).len() + 1,
    when t.wf() && t.valid(v)
{
    seq![(v, lines)] + children_rows(t, v, lines, 0)
}

/// The rows of the children of `v` from the `i`-th on.
pub open spec fn children_rows(t: TreeModel, v: ViewId, lines: Seq<bool>, i: int) -> Seq<
    (ViewId, Seq<bool>),
>
    decreases t.len() - t.depth_of(v), t.children_of(v).len() - i,
    when t.wf() && t.valid(v) && 0 <= i
{
    let cs = t.children_of(v);
    if i >= cs.len() {
        seq![]
    } else {
        proof {
            assert(t.parent(cs[i]) == Some(v));
        }
        debug_rows(t, cs[i], lines.push(i + 1 < cs.len())) + children_rows(t, v, lines, i + 1)
    }
}

/// The rows still to be drawn for a stack of pending views, top first.
pub open spec fn pending_rows(t: TreeModel, stack: Seq<(ViewId, Seq<bool>)>) -> Seq<
    (ViewId, Seq<bool>),
>
    decreases stack.len(),
{
    if stack.len() == 0 {
        seq![]
    } else {
        debug_rows(t, stack.last().0, stack.last().1) + pending_rows(t, stack.drop_last())
    }
}

/// A row as plain values.
pub open spec fn row_view(r: (ViewId, Vec<bool>)) -> (ViewId, Seq<bool>) {
    (r.0, r.1@)
}

/// The rows as plain values.
pub open spec fn rows_view(rows: Seq<(ViewId, Vec<bool>)>) -> Seq<(ViewId, Seq<bool>)> {
    rows.map_values(|r: (ViewId, Vec<bool>)| row_view(r))
}

/// `lines` with `more` added at the end.
fn extended(lines: &Vec<bool>, more: bool) -> (r: Vec<bool>)
    ensures
        r@ == lines@.push(more),
{
    let mut r: Vec<bool> = Vec::new();
    let mut i: usize = 0;
    while i < lines.len()
        invariant
            i <= lines@.len(),
            r@ == lines@.subrange(0, i as int),
        decreases lines@.len() - i,
    {
        r.push(lines[i]);
        i = i + 1;
        assert(r@ =~= lines@.subrange(0, i as int));
    }
    r.push(more);
    assert(lines@.subrange(0, lines@.len() as int) =~= lines@);
    r
}

proof fn lemma_pending_push(t: TreeModel, stack: Seq<(ViewId, Seq<bool>)>, e: (ViewId, Seq<bool>))
    ensures
        pending_rows(t, stack.push(e)) == debug_rows(t, e.0, e.1) + pending_rows(t, stack),
{
    assert(stack.push(e).drop_last() =~= stack);
}

/// The views below `root_view` in tree order, each with the levels of its
/// drawing: for each view, the flags of the levels from `root_view` down to
/// it, a flag telling whether the branch at that level goes on below.
pub fn view_debug_tree_rows(tree: &ViewTree, root_view: ViewId) -> (rows: Vec<(ViewId, Vec<bool>)>)
    requires
        tree.wf(),
        tree@.valid(root_view),
    ensures
        rows_view(rows@) == debug_rows(tree@, root_view, Seq::<bool>::empty()),
{
    let ghost t = tree@;
    let mut views: Vec<(ViewId, Vec<bool>)> = Vec::new();
    views.push((root_view, Vec::new()));
    let mut rows: Vec<(ViewId, Vec<bool>)> = Vec::new();
    proof {
        lemma_pending_push(t, Seq::empty(), (root_view, Seq::<bool>::empty()));
        assert(rows_view(views@) =~= Seq::<(ViewId, Seq<bool>)>::empty().push(
            (root_view, Seq::<bool>::empty()),
        ));
        assert(rows_view(rows@) =~= Seq::<(ViewId, Seq<bool>)>::empty());
        assert(pending_rows(t, Seq::empty()) =~= Seq::<(ViewId, Seq<bool>)>::empty());
        assert(rows_view(rows@) + pending_rows(t, rows_view(views@)) =~= debug_rows(
            t,
            root_view,
            Seq::<bool>::empty(),
        ));
    }
    loop
        invariant
            tree.wf(),
            t == tree@,
            forall|i: int| 0 <= i < views@.len() ==> t.valid(#[trigger] views@[i].0),
            rows_view(rows@) + pending_rows(t, rows_view(views@)) == debug_rows(
                t,
                root_view,
                Seq::<bool>::empty(),
            ),
        decreases pending_rows(t, rows_view(views@)).len(),
    {
        let ghost before = views@;
        match views.pop() {
            None => {
                proof {
                    assert(rows_view(views@) =~= Seq::<(ViewId, Seq<bool>)>::empty());
                    assert(rows_view(rows@) + pending_rows(t, rows_view(views@)) =~= rows_view(
                        rows@,
                    ));
                }
                return rows;
            },
            Some((current_view, active_lines)) => {
                let ghost rest = views@;
                let ghost lines = active_lines@;
                proof {
                    assert(t.valid(before[before.len() - 1].0));
                    assert(rows_view(before) =~= rows_view(rest).push((current_view, lines)));
                    lemma_pending_push(t, rows_view(rest), (current_view, lines));
                }
                let mut children = tree.children(current_view);
                let ghost cs = children@;
                let n = children.len();
                let mut j: usize = 0;
                if let Some(last_child) = children.pop() {
                    proof {
                        assert(t.parent(cs[n - 1]) == Some(current_view));
                    }
                    let more = extended(&active_lines, false);
                    let ghost v0 = views@;
                    views.push((last_child, more));
                    proof {
                        assert(rows_view(views@) =~= rows_view(v0).push((last_child, lines.push(false))));
                        lemma_pending_push(t, rows_view(v0), (last_child, lines.push(false)));
                        assert(children_rows(t, current_view, lines, n as int) =~= Seq::<
                            (ViewId, Seq<bool>),
                        >::empty());
                        assert(children_rows(t, current_view, lines, n - 1) =~= debug_rows(
                            t,
                            last_child,
                            lines.push(false),
                        ));
                    }
                    j = n - 1;
                } else {
                    proof {
                        assert(children_rows(t, current_view, lines, 0) =~= Seq::<
                            (ViewId, Seq<bool>),
                        >::empty());
                    }
                }
                proof {
                    assert(pending_rows(t, rows_view(views@)) =~= children_rows(
                        t,
                        current_view,
                        lines,
                        j as int,
                    ) + pending_rows(t, rows_view(rest)));
                }
                while j > 0
                    invariant
                        tree.wf(),
                        t == tree@,
                        t.valid(current_view),
                        cs == t.children_of(current_view),
                        n == cs.len(),
                        j < n || (j == 0 && n == 0),
                        n > 0 ==> children@ == cs.subrange(0, n - 1),
                        forall|i: int| 0 <= i < views@.len() ==> t.valid(#[trigger] views@[i].0),
                        active_lines@ == lines,
                        pending_rows(t, rows_view(views@)) == children_rows(
                            t,
                            current_view,
                            lines,
                            j as int,
                        ) + pending_rows(t, rows_view(rest)),
                    decreases j,
                {
                    j = j - 1;
                    let child = children[j];
                    proof {
                        assert(child == cs[j as int]);
                        assert(t.parent(cs[j as int]) == Some(current_view));
                    }
                    let more = extended(&active_lines, true);
                    let ghost v0 = views@;
                    views.push((child, more));
                    proof {
                        assert(rows_view(views@) =~= rows_view(v0).push((child, lines.push(true))));
                        lemma_pending_push(t, rows_view(v0), (child, lines.push(true)));
                        assert(j + 1 < cs.len());
                        assert(children_rows(t, current_view, lines, j as int) == debug_rows(
                            t,
                            cs[j as int],
                            lines.push(true),
                        ) + children_rows(t, current_view, lines, j + 1));
                        assert(pending_rows(t, rows_view(views@)) =~= children_rows(
                            t,
                            current_view,
                            lines,
                            j as int,
                        ) + pending_rows(t, rows_view(rest)));
                    }
                }
                let ghost r0 = rows@;
                rows.push((current_view, active_lines));
                proof {
                    assert(rows_view(rows@) =~= rows_view(r0).push((current_view, lines)));
                    assert(debug_rows(t, current_view, lines) == seq![(current_view, lines)]
                        + children_rows(t, current_view, lines, 0));
                    assert(rows_view(rows@) + pending_rows(t, rows_view(views@)) =~= rows_view(r0)
                        + pending_rows(t, rows_view(before)));
                }
            },
        }
    }
}

/// The views of the rows, in order.
pub open spec fn row_views(rows: Seq<(ViewId, Seq<bool>)>) -> Seq<ViewId> {
    rows.map_values(|r: (ViewId, Seq<bool>)| r.0)
}

/// The debug drawing lists the views below `v` in tree order, whatever the
/// levels above `v`.
pub proof fn debug_rows_follow_tree_order(t: TreeModel, v: ViewId, lines: Seq<bool>)
    requires
        t.wf(),
        t.valid(v),
    ensures
        row_views(debug_rows(t, v, lines)) == preorder(t, v),
    decreases t.len() - t.depth_of(v), t.children_of(v).len() + 1,
{
    children_rows_follow_tree_order(t, v, lines, 0);
    assert(row_views(debug_rows(t, v, lines)) =~= seq![v] + row_views(
        children_rows(t, v, lines, 0),
    ));
}

/// The rows of the children from the `i`-th on list their views in tree order.
proof fn children_rows_follow_tree_order(t: TreeModel, v: ViewId, lines: Seq<bool>, i: int)
    requires
        t.wf(),
        t.valid(v),
        0 <= i,
    ensures
        row_views(children_rows(t, v, lines, i)) == children_preorder(t, v, i),
    decreases t.len() - t.depth_of(v), t.children_of(v).len() - i,
{
    let cs = t.children_of(v);
    if i < cs.len() {
        assert(t.parent(cs[i]) == Some(v));
        let more = lines.push(i + 1 < cs.len());
        debug_rows_follow_tree_order(t, cs[i], more);
        children_rows_follow_tree_order(t, v, lines, i + 1);
        assert(row_views(children_rows(t, v, lines, i)) =~= row_views(debug_rows(t, cs[i], more))
            + row_views(children_rows(t, v, lines, i + 1)));
    } else {
        assert(row_views(children_rows(t, v, lines, i)) =~= Seq::<ViewId>::empty());
    }
}

/// The ancestor of `x` at depth `d`, or `x` itself when it is not deeper.
pub open spec fn ancestor_at(t: TreeModel, x: ViewId, d: int) -> ViewId
    decreases t.depth_of(x),
    when t.wf() && t.valid(x)
{
    if t.depth_of(x) <= d {
        x
    } else {
        match t.parent(x) {
            Some(p) => ancestor_at(t, p, d),
            None => x,
        }
    }
}

/// A view below `a` has `a` as its ancestor at the depth of `a`.
proof fn lemma_ancestor_at_depth(t: TreeModel, a: ViewId, x: ViewId)
    requires
        t.wf(),
        t.valid(x),
        in_subtree(t, a, x),
    ensures
        ancestor_at(t, x, t.depth_of(a) as int) == a,
    decreases t.depth_of(x),
{
    lemma_subtree_depth(t, a, x);
    if x != a {
        lemma_ancestor_at_depth(t, a, t.parent(x)->0);
    }
}

/// A row `(x, l)` drawn below `v`, when the levels above `v` are `lines`:
/// `x` lies below `v`, `l` starts with `lines` and has one more flag per
/// level from just below `v` down to `x`, and each of those flags tells
/// whether the ancestor of `x` at that level has a later sibling.
pub open spec fn row_flags_ok(t: TreeModel, v: ViewId, lines: Seq<bool>, x: ViewId, l: Seq<bool>) -> bool {
    &&& t.valid(x)
    &&& in_subtree(t, v, x)
    &&& l.len() == lines.len() + t.depth_of(x) - t.depth_of(v)
    &&& l.subrange(0, lines.len() as int) == lines
    &&& forall|i: int|
        lines.len() <= i < l.len() ==> #[trigger] l[i] == (next_sibling(
            t,
            ancestor_at(t, x, t.depth_of(v) + (i - lines.len()) + 1),
        ) is Some)
}

proof fn lemma_debug_rows_flags(t: TreeModel, v: ViewId, lines: Seq<bool>)
    requires
        t.wf(),
        t.valid(v),
    ensures
        forall|k: int|
            0 <= k < debug_rows(t, v, lines).len() ==> row_flags_ok(
                t,
                v,
                lines,
                (#[trigger] debug_rows(t, v, lines)[k]).0,
                debug_rows(t, v, lines)[k].1,
            ),
    decreases t.len() - t.depth_of(v), t.children_of(v).len() + 1,
{
    lemma_children_rows_flags(t, v, lines, 0);
    let rows = debug_rows(t, v, lines);
    let c = children_rows(t, v, lines, 0);
    assert(rows == seq![(v, lines)] + c);
    assert forall|k: int| 0 <= k < rows.len() implies row_flags_ok(
        t,
        v,
        lines,
        (#[trigger] rows[k]).0,
        rows[k].1,
    ) by {
        if k == 0 {
            assert(in_subtree(t, v, v));
            assert(lines.subrange(0, lines.len() as int) =~= lines);
        } else {
            assert(rows[k] == c[k - 1]);
        }
    }
}

proof fn lemma_children_rows_flags(t: TreeModel, v: ViewId, lines: Seq<bool>, i: int)
    requires
        t.wf(),
        t.valid(v),
        0 <= i,
    ensures
        forall|k: int|
            0 <= k < children_rows(t, v, lines, i).len() ==> row_flags_ok(
                t,
                v,
                lines,
                (#[trigger] children_rows(t, v, lines, i)[k]).0,
                children_rows(t, v, lines, i)[k].1,
            ),
    decreases t.len() - t.depth_of(v), t.children_of(v).len() - i,
{
    let cs = t.children_of(v);
    if i < cs.len() {
        let ci = cs[i];
        assert(t.parent(cs[i]) == Some(v));
        let flag = i + 1 < cs.len();
        let more = lines.push(flag);
        lemma_debug_rows_flags(t, ci, more);
        lemma_children_rows_flags(t, v, lines, i + 1);
        let p = debug_rows(t, ci, more);
        let r = children_rows(t, v, lines, i + 1);
        let c = children_rows(t, v, lines, i);
        assert(c == p + r);
        lemma_position_among_siblings(t, ci);
        assert(cs.index_of(ci) == i);
        assert((next_sibling(t, ci) is Some) == flag);
        assert forall|k: int| 0 <= k < c.len() implies row_flags_ok(
            t,
            v,
            lines,
            (#[trigger] c[k]).0,
            c[k].1,
        ) by {
            if k < p.len() {
                assert(c[k] == p[k]);
                let x = p[k].0;
                let l = p[k].1;
                assert(row_flags_ok(t, ci, more, x, l));
                lemma_below_child_is_below_parent(t, v, ci, x);
                lemma_ancestor_at_depth(t, ci, x);
                assert(l.subrange(0, lines.len() as int) =~= l.subrange(0, more.len() as int).subrange(
                    0,
                    lines.len() as int,
                ));
                assert(more.subrange(0, lines.len() as int) =~= lines);
                assert(l[lines.len() as int] == more[lines.len() as int]);
                assert forall|j: int| lines.len() <= j < l.len() implies #[trigger] l[j] == (
                next_sibling(t, ancestor_at(t, x, t.depth_of(v) + (j - lines.len()) + 1)) is Some) by {
                    if j == lines.len() {
                        assert(t.depth_of(v) + (j - lines.len()) + 1 == t.depth_of(ci));
                    } else {
                        assert(more.len() <= j);
                        assert(t.depth_of(ci) + (j - more.len()) + 1 == t.depth_of(v) + (j
                            - lines.len()) + 1);
                    }
                }
            } else {
                assert(c[k] == r[k - p.len()]);
            }
        }
    }
}

/// In the debug drawing below `root_view`, each row's view lies below
/// `root_view` and has one flag per level from just below `root_view` down
/// to itself (none for `root_view`); the flag at each level tells whether
/// the view's ancestor at that level (the view itself at the last level)
/// has a later sibling, which decides whether the level is drawn going on.
pub proof fn debug_row_flags_tell_later_siblings(t: TreeModel, root_view: ViewId)
    requires
        t.wf(),
        t.valid(root_view),
    ensures
        forall|k: int|
            0 <= k < debug_rows(t, root_view, Seq::<bool>::empty()).len() ==> {
                let x = (#[trigger] debug_rows(t, root_view, Seq::<bool>::empty())[k]).0;
                let l = debug_rows(t, root_view, Seq::<bool>::empty())[k].1;
                &&& in_subtree(t, root_view, x)
                &&& l.len() == t.depth_of(x) - t.depth_of(root_view)
                &&& forall|i: int|
                    0 <= i < l.len() ==> #[trigger] l[i] == (next_sibling(
                        t,
                        ancestor_at(t, x, t.depth_of(root_view) + i + 1),
                    ) is Some)
            },
{
    lemma_debug_rows_flags(t, root_view, Seq::<bool>::empty());
    let rows = debug_rows(t, root_view, Seq::<bool>::empty());
    assert forall|k: int| 0 <= k < rows.len() implies {
        let x = (#[trigger] rows[k]).0;
        let l = rows[k].1;
        &&& in_subtree(t, root_view, x)
        &&& l.len() == t.depth_of(x) - t.depth_of(root_view)
        &&& forall|i: int|
            0 <= i < l.len() ==> #[trigger] l[i] == (next_sibling(
                t,
                ancestor_at(t, x, t.depth_of(root_view) + i + 1),
            ) is Some)
    } by {
        let x = rows[k].0;
        let l = rows[k].1;
        assert(row_flags_ok(t, root_view, Seq::<bool>::empty(), x, l));
        assert forall|i: int| 0 <= i < l.len() implies #[trigger] l[i] == (next_sibling(
            t,
            ancestor_at(t, x, t.depth_of(root_view) + i + 1),
        ) is Some) by {
            assert(t.depth_of(root_view) + (i - 0) + 1 == t.depth_of(root_view) + i + 1);
        }
    }
}

/// The drawing of a level that goes on below the row, or not.
pub open spec fn line_piece(more: bool) -> Seq<char> {
    if more {
        "│   "@
    } else {
        "    "@
    }
}

/// The drawing of the branch that leads to the row's view, which has a
/// sibling after it, or not.
pub open spec fn leaf_piece(more: bool) -> Seq<char> {
    if more {
        "├── "@
    } else {
        "└── "@
    }
}

/// The drawings of the levels `lines`, in order.
pub open spec fn lines_prefix(lines: Seq<bool>) -> Seq<char>
    decreases lines.len(),
{
    if lines.len() == 0 {
        seq![]
    } else {
        lines_prefix(lines.drop_last()) + line_piece(lines.last())
    }
}

/// The drawing before a view's name in its row: nothing for the top view,
/// else the levels above it and the branch to it.
pub open spec fn row_prefix(lines: Seq<bool>) -> Seq<char> {
    if lines.len() == 0 {
        seq![]
    } else {
        lines_prefix(lines.drop_last()) + leaf_piece(lines.last())
    }
}

/// The ascii art drawn before a view's name in the debug tree.
pub fn debug_row_prefix(active_lines: &Vec<bool>) -> (s: String)
    ensures
        s@ == row_prefix(active_lines@),
        // four characters per level
        s@.len() == 4 * active_lines@.len(),
        // each level above the row's own: a line where that level goes on, else blank
        forall|i: int|
            0 <= i < active_lines@.len() - 1 ==> s@.subrange(4 * i, 4 * i + 4) == (if #[trigger] active_lines@[i] {
                "│   "@
            } else {
                "    "@
            }),
        // the row's own level: the branch to a view with a later sibling, else the last branch
        active_lines@.len() > 0 ==> s@.subrange(
            4 * (active_lines@.len() - 1),
            4 * (active_lines@.len() as int),
        ) == (if active_lines@.last() {
            "├── "@
        } else {
            "└── "@
        }),
{
    let mut s = String::new();
    let n = active_lines.len();
    if n == 0 {
        return s;
    }
    let mut i: usize = 0;
    while i < n - 1
        invariant
            n == active_lines@.len(),
            n > 0,
            i <= n - 1,
            s@ == lines_prefix(active_lines@.subrange(0, i as int)),
        decreases n - 1 - i,
    {
        if active_lines[i] {
            s.append("│   ");
        } else {
            s.append("    ");
        }
        proof {
            let sub = active_lines@.subrange(0, i + 1);
            assert(sub.drop_last() =~= active_lines@.subrange(0, i as int));
            assert(sub.last() == active_lines@[i as int]);
        }
        i = i + 1;
    }
    if active_lines[n - 1] {
        s.append("├── ");
    } else {
        s.append("└── ");
    }
    proof {
        let l = active_lines@;
        assert(l.drop_last() =~= l.subrange(0, n - 1));
        lemma_lines_prefix_levels(l.drop_last());
        reveal_strlit("├── ");
        reveal_strlit("└── ");
        let p = lines_prefix(l.drop_last());
        let q = leaf_piece(l.last());
        assert(s@ == p + q);
        assert forall|i: int| 0 <= i < l.len() - 1 implies s@.subrange(4 * i, 4 * i + 4) == (if #[trigger] l[i] {
            "│   "@
        } else {
            "    "@
        }) by {
            assert(l.drop_last()[i] == l[i]);
            assert(s@.subrange(4 * i, 4 * i + 4) =~= p.subrange(4 * i, 4 * i + 4));
        }
        assert(s@.subrange(4 * (l.len() - 1), 4 * (l.len() as int)) =~= q);
    }
    s
}

/// The drawing of the levels `lines` has four characters per level, and at
/// each level a line where the level goes on, else blank.
proof fn lemma_lines_prefix_levels(lines: Seq<bool>)
    ensures
        lines_prefix(lines).len() == 4 * lines.len(),
        forall|i: int|
            0 <= i < lines.len() ==> lines_prefix(lines).subrange(4 * i, 4 * i + 4) == (if #[trigger] lines[i] {
                "│   "@
            } else {
                "    "@
            }),
    decreases lines.len(),
{
    reveal_strlit("│   ");
    reveal_strlit("    ");
    if lines.len() > 0 {
        let d = lines.drop_last();
        lemma_lines_prefix_levels(d);
        let p = lines_prefix(d);
        let q = line_piece(lines.last());
        assert(lines_prefix(lines) == p + q);
        assert forall|i: int| 0 <= i < lines.len() implies lines_prefix(lines).subrange(
            4 * i,
            4 * i + 4,
        ) == (if #[trigger] lines[i] {
            "│   "@
        } else {
            "    "@
        }) by {
            if i < lines.len() - 1 {
                assert(d[i] == lines[i]);
                assert(lines_prefix(lines).subrange(4 * i, 4 * i + 4) =~= p.subrange(4 * i, 4 * i + 4));
            } else {
                assert(lines_prefix(lines).subrange(4 * i, 4 * i + 4) =~= q);
            }
        }
    }
}

} // verus!
