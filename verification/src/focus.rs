//! Keyboard focus and tab navigation: Tab moves the focus to the next view
//! in tree order that can take it, Shift+Tab to the previous one, wrapping
//! around at the ends of the tree.
use vstd::prelude::*;
use vstd::set_lib::{set_int_range, lemma_int_range, lemma_len_subset};
use crate::tree::{ViewId, TreeModel, ViewTree, root_id};
use crate::navigation::{
    tree_next,
    tree_previous,
    nested_last_child,
    view_tree_next,
    view_tree_previous,
    view_nested_last_child,
};
use crate::scroll::every_view_is_below_the_root;
use crate::preorder::{preorder, lemma_preorder_shape, lemma_preorder_covers_subtree};
use crate::tree_order::{
    tree_previous_undoes_tree_next,
    tree_next_undoes_tree_previous,
    tree_order_ends,
    lemma_nested_last_child_is_leaf,
};

verus! {

/// The focus part of the application state.
pub struct FocusState {
    /// The view that has the keyboard focus.
    pub focus: Option<ViewId>,
    /// The view that had the focus before it was last cleared.
    pub prev_focus: Option<ViewId>,
    /// Whether the focus was last moved by the keyboard.
    pub keyboard_navigation: bool,
    /// The views that can take the focus (navigable by keyboard, enabled
    /// and shown).
    pub focusable: Vec<ViewId>,
}

impl FocusState {
    /// No focus, no previous focus, and no view that can take the focus.
    pub fn new() -> (s: FocusState)
        ensures
            s.focus is None,
            s.prev_focus is None,
            !s.keyboard_navigation,
            s.focusable@ == Seq::<ViewId>::empty(),
    {
        FocusState { focus: None, prev_focus: None, keyboard_navigation: false, focusable: Vec::new() }
    }

    /// Whether `id` can take the focus.
    pub fn can_focus(&self, id: ViewId) -> (r: bool)
        ensures
            r == self.focusable@.contains(id),
    {
        let mut i: usize = 0;
        while i < self.focusable.len()
            invariant
                i <= self.focusable@.len(),
                forall|j: int| 0 <= j < i ==> self.focusable@[j] != id,
            decreases self.focusable@.len() - i,
        {
            if self.focusable[i] == id {
                return true;
            }
            i = i + 1;
        }
        false
    }

    /// Removes the focus, remembering the view that had it.
    pub fn clear_focus(&mut self)
        ensures
            final(self).focus is None,
            final(self).prev_focus == (if old(self).focus is Some {
                old(self).focus
            } else {
                old(self).prev_focus
            }),
            final(self).keyboard_navigation == old(self).keyboard_navigation,
            final(self).focusable == old(self).focusable,
    {
        if self.focus.is_some() {
            self.prev_focus = self.focus;
        }
        self.focus = None;
    }

    /// Gives the focus to `id`.
    pub fn update_focus(&mut self, id: ViewId, keyboard_navigation: bool)
        ensures
            final(self).focus == Some(id),
            final(self).prev_focus == (if old(self).focus is Some {
                old(self).focus
            } else {
                old(self).prev_focus
            }),
            final(self).keyboard_navigation == keyboard_navigation,
            final(self).focusable == old(self).focusable,
    {
        if self.focus.is_some() {
            self.clear_focus();
        }
        self.focus = Some(id);
        self.keyboard_navigation = keyboard_navigation;
    }
}

/// The view where tab navigation starts: the focus, else the previous
/// focus, else the root.
pub open spec fn tab_start(s: FocusState, root_view: ViewId) -> ViewId {
    match s.focus {
        Some(f) => f,
        None => match s.prev_focus {
            Some(p) => p,
            None => root_view,
        },
    }
}

/// One step of tab navigation: the next view in tree order, wrapping to
/// the root; backwards, the previous view, wrapping to the last view.
pub open spec fn tab_step(t: TreeModel, root_view: ViewId, backwards: bool, id: ViewId) -> ViewId {
    if backwards {
        match tree_previous(t, root_view, id) {
            Some(p) => p,
            None => nested_last_child(t, root_view),
        }
    } else {
        match tree_next(t, id) {
            Some(n) => n,
            None => root_view,
        }
    }
}

/// The view reached after `k` steps of tab navigation from `start`.
pub open spec fn tab_walk(
    t: TreeModel,
    root_view: ViewId,
    backwards: bool,
    start: ViewId,
    k: nat,
) -> ViewId
    decreases k,
{
    if k == 0 {
        start
    } else {
        tab_step(t, root_view, backwards, tab_walk(t, root_view, backwards, start, (k - 1) as nat))
    }
}

/// The `k`-th view of the walk is where tab navigation stops: it can take
/// the focus or is the start again, and no view before it on the walk is
/// either.
pub open spec fn tab_stops_at(
    t: TreeModel,
    root_view: ViewId,
    backwards: bool,
    focusable: Seq<ViewId>,
    start: ViewId,
    k: nat,
) -> bool {
    let r = tab_walk(t, root_view, backwards, start, k);
    &&& 1 <= k
    &&& (r == start || focusable.contains(r))
    &&& forall|j: nat|
        1 <= j < k ==> #[trigger] tab_walk(t, root_view, backwards, start, j) != start
            && !focusable.contains(tab_walk(t, root_view, backwards, start, j))
}

/// `r` is where tab navigation from `start` stops: the first view on the
/// walk from `start`, after at least one step and within as many steps as
/// the tree has views, that can take the focus or is `start` again.
pub open spec fn tab_stops_first_at(
    t: TreeModel,
    root_view: ViewId,
    backwards: bool,
    focusable: Seq<ViewId>,
    start: ViewId,
    r: ViewId,
) -> bool {
    exists|k: nat|
        k <= t.len() && #[trigger] tab_walk(t, root_view, backwards, start, k) == r && tab_stops_at(
            t,
            root_view,
            backwards,
            focusable,
            start,
            k,
        )
}

/// A step of tab navigation stays in the tree and is undone by a step in
/// the other direction.
pub proof fn tab_step_undone_by_opposite_step(t: TreeModel, backwards: bool, x: ViewId)
    requires
        t.wf(),
        t.valid(x),
    ensures
        t.valid(tab_step(t, root_id(), backwards, x)),
        tab_step(t, root_id(), !backwards, tab_step(t, root_id(), backwards, x)) == x,
{
    tree_order_ends(t);
    assert(t.valid(root_id()));
    lemma_nested_last_child_is_leaf(t, root_id());
    tree_previous_undoes_tree_next(t, x);
    tree_next_undoes_tree_previous(t, x);
    if !backwards {
        let y = tab_step(t, root_id(), false, x);
        tree_next_undoes_tree_previous(t, y);
    }
}

proof fn lemma_walk_valid(t: TreeModel, backwards: bool, start: ViewId, k: nat)
    requires
        t.wf(),
        t.valid(start),
    ensures
        t.valid(tab_walk(t, root_id(), backwards, start, k)),
    decreases k,
{
    if k > 0 {
        lemma_walk_valid(t, backwards, start, (k - 1) as nat);
        tab_step_undone_by_opposite_step(
            t,
            backwards,
            tab_walk(t, root_id(), backwards, start, (k - 1) as nat),
        );
    }
}

/// Two equal views on a walk, `a` steps and `b` steps from its start, mean
/// the walk is back at its start after `b - a` steps.
proof fn lemma_walk_repeat(t: TreeModel, backwards: bool, start: ViewId, a: nat, b: nat)
    requires
        t.wf(),
        t.valid(start),
        a <= b,
        tab_walk(t, root_id(), backwards, start, a) == tab_walk(t, root_id(), backwards, start, b),
    ensures
        tab_walk(t, root_id(), backwards, start, (b - a) as nat) == start,
    decreases a,
{
    if a > 0 {
        let pa = tab_walk(t, root_id(), backwards, start, (a - 1) as nat);
        let pb = tab_walk(t, root_id(), backwards, start, (b - 1) as nat);
        lemma_walk_valid(t, backwards, start, (a - 1) as nat);
        lemma_walk_valid(t, backwards, start, (b - 1) as nat);
        tab_step_undone_by_opposite_step(t, backwards, pa);
        tab_step_undone_by_opposite_step(t, backwards, pb);
        lemma_walk_repeat(t, backwards, start, (a - 1) as nat, (b - 1) as nat);
    }
}

/// Tab navigation from any view comes back to it within as many steps as
/// the tree has views.
pub proof fn tab_walk_returns(t: TreeModel, backwards: bool, start: ViewId)
    requires
        t.wf(),
        t.valid(start),
    ensures
        exists|p: nat|
            1 <= p <= t.len() && #[trigger] tab_walk(t, root_id(), backwards, start, p) == start,
{
    let n = t.len();
    let s = Seq::new(n + 1, |i: int| tab_walk(t, root_id(), backwards, start, i as nat).0 as int);
    assert forall|i: int| 0 <= i < s.len() implies 0 <= #[trigger] s[i] < n by {
        lemma_walk_valid(t, backwards, start, i as nat);
    }
    if s.no_duplicates() {
        s.unique_seq_to_set();
        lemma_int_range(0, n as int);
        assert(s.to_set().subset_of(set_int_range(0, n as int)));
        lemma_len_subset(s.to_set(), set_int_range(0, n as int));
        assert(false);
    }
    let (i, j) = choose|i: int, j: int|
        0 <= i < s.len() && 0 <= j < s.len() && i != j && s[i] == s[j];
    let a = if i < j {
        i
    } else {
        j
    };
    let b = if i < j {
        j
    } else {
        i
    };
    assert(s[a] == s[b]);
    assert(tab_walk(t, root_id(), backwards, start, a as nat) == tab_walk(
        t,
        root_id(),
        backwards,
        start,
        b as nat,
    ));
    lemma_walk_repeat(t, backwards, start, a as nat, b as nat);
    assert(tab_walk(t, root_id(), backwards, start, (b - a) as nat) == start);
}

/// Walking `a + c` steps is walking `a` steps and then `c` more.
proof fn lemma_walk_add(t: TreeModel, backwards: bool, x: ViewId, a: nat, c: nat)
    ensures
        tab_walk(t, root_id(), backwards, x, a + c) == tab_walk(
            t,
            root_id(),
            backwards,
            tab_walk(t, root_id(), backwards, x, a),
            c,
        ),
    decreases c,
{
    if c > 0 {
        lemma_walk_add(t, backwards, x, a, (c - 1) as nat);
        assert((a + c - 1) as nat == a + (c - 1) as nat);
    }
}

/// A step of tab navigation moves along the tree order of the whole tree:
/// Tab to the view after, wrapping from the last view to the root; Shift+Tab
/// to the view before, wrapping from the root to the last view.
pub proof fn tab_step_follows_tree_order(t: TreeModel, backwards: bool, i: int)
    requires
        t.wf(),
        0 <= i < preorder(t, root_id()).len(),
    ensures
        ({
            let p = preorder(t, root_id());
            let m = p.len() as int;
            &&& !backwards ==> tab_step(t, root_id(), false, p[i]) == (if i + 1 < m {
                p[i + 1]
            } else {
                p[0]
            })
            &&& backwards ==> tab_step(t, root_id(), true, p[i]) == (if i > 0 {
                p[i - 1]
            } else {
                p[m - 1]
            })
        }),
{
    let p = preorder(t, root_id());
    let m = p.len() as int;
    assert(t.valid(root_id()));
    lemma_preorder_shape(t, root_id());
    tree_order_ends(t);
    if !backwards {
        if i + 1 >= m {
            assert(p[i] == p.last());
        }
    } else {
        if i > 0 {
            tab_step_undone_by_opposite_step(t, false, p[i - 1]);
        } else {
            assert(p[m - 1] == p.last());
        }
    }
}

/// Walking forward from the `s`-th view of the tree order goes through the
/// views after it in order, and back to the root after the last one.
proof fn lemma_walk_forward(t: TreeModel, s: int, j: nat)
    requires
        t.wf(),
        0 <= s,
        s + j <= preorder(t, root_id()).len(),
    ensures
        s + j < preorder(t, root_id()).len() ==> tab_walk(
            t,
            root_id(),
            false,
            preorder(t, root_id())[s],
            j,
        ) == preorder(t, root_id())[s + j],
        s + j == preorder(t, root_id()).len() && j > 0 ==> tab_walk(
            t,
            root_id(),
            false,
            preorder(t, root_id())[s],
            j,
        ) == preorder(t, root_id())[0],
    decreases j,
{
    if j > 0 {
        lemma_walk_forward(t, s, (j - 1) as nat);
        tab_step_follows_tree_order(t, false, s + j - 1);
    }
}

/// Walking backward from the `s`-th view of the tree order goes through
/// the views before it in reverse order, and to the last view after the root.
proof fn lemma_walk_backward(t: TreeModel, s: int, j: nat)
    requires
        t.wf(),
        0 <= s < preorder(t, root_id()).len(),
        j <= s + 1,
    ensures
        j <= s ==> tab_walk(t, root_id(), true, preorder(t, root_id())[s], j) == preorder(
            t,
            root_id(),
        )[s - j],
        j == s + 1 ==> tab_walk(t, root_id(), true, preorder(t, root_id())[s], j) == preorder(
            t,
            root_id(),
        )[preorder(t, root_id()).len() - 1],
    decreases j,
{
    if j > 0 {
        lemma_walk_backward(t, s, (j - 1) as nat);
        tab_step_follows_tree_order(t, true, s - j + 1);
    }
}

/// Tab navigation goes through every view of the tree before it comes back
/// to where it started, in either direction.
#[verifier::rlimit(40)]
pub proof fn tab_walk_visits_every_view(t: TreeModel, backwards: bool, start: ViewId, v: ViewId)
    requires
        t.wf(),
        t.valid(start),
        t.valid(v),
    ensures
        exists|j: nat|
            1 <= j && #[trigger] tab_walk(t, root_id(), backwards, start, j) == v && forall|i: nat|
                1 <= i < j ==> #[trigger] tab_walk(t, root_id(), backwards, start, i) != start,
{
    let p = preorder(t, root_id());
    let m = p.len() as int;
    assert(t.valid(root_id()));
    lemma_preorder_shape(t, root_id());
    every_view_is_below_the_root(t, start);
    every_view_is_below_the_root(t, v);
    lemma_preorder_covers_subtree(t, root_id(), start);
    lemma_preorder_covers_subtree(t, root_id(), v);
    let s = choose|s: int| 0 <= s < m && p[s] == start;
    let q = choose|q: int| 0 <= q < m && p[q] == v;
    if !backwards {
        if q > s {
            let j = (q - s) as nat;
            lemma_walk_forward(t, s, j);
            assert forall|i: nat| 1 <= i < j implies #[trigger] tab_walk(
                t,
                root_id(),
                backwards,
                start,
                i,
            ) != start by {
                lemma_walk_forward(t, s, i);
                assert(p[s + i] != p[s]);
            }
            assert(tab_walk(t, root_id(), backwards, start, j) == v);
        } else {
            let a = (m - s) as nat;
            let j = (a + q) as nat;
            lemma_walk_forward(t, s, a);
            lemma_walk_add(t, false, start, a, q as nat);
            lemma_walk_forward(t, 0, q as nat);
            assert forall|i: nat| 1 <= i < j implies #[trigger] tab_walk(
                t,
                root_id(),
                backwards,
                start,
                i,
            ) != start by {
                if i < a {
                    lemma_walk_forward(t, s, i);
                    assert(p[s + i] != p[s]);
                } else {
                    lemma_walk_add(t, false, start, a, (i - a) as nat);
                    lemma_walk_forward(t, 0, (i - a) as nat);
                    assert(p[i - a] != p[s]);
                }
            }
            assert(tab_walk(t, root_id(), backwards, start, j) == v);
        }
    } else {
        if q < s {
            let j = (s - q) as nat;
            lemma_walk_backward(t, s, j);
            assert forall|i: nat| 1 <= i < j implies #[trigger] tab_walk(
                t,
                root_id(),
                backwards,
                start,
                i,
            ) != start by {
                lemma_walk_backward(t, s, i);
                assert(p[s - i] != p[s]);
            }
            assert(tab_walk(t, root_id(), backwards, start, j) == v);
        } else {
            let a = (s + 1) as nat;
            let c = (m - 1 - q) as nat;
            let j = (a + c) as nat;
            lemma_walk_backward(t, s, a);
            lemma_walk_add(t, true, start, a, c);
            lemma_walk_backward(t, m - 1, c);
            assert forall|i: nat| 1 <= i < j implies #[trigger] tab_walk(
                t,
                root_id(),
                backwards,
                start,
                i,
            ) != start by {
                if i <= s {
                    lemma_walk_backward(t, s, i);
                    assert(p[s - i] != p[s]);
                } else {
                    lemma_walk_add(t, true, start, a, (i - a) as nat);
                    lemma_walk_backward(t, m - 1, (i - a) as nat);
                    assert(p[m - 1 - (i - a)] != p[s]);
                }
            }
            assert(tab_walk(t, root_id(), backwards, start, j) == v);
        }
    }
}

/// When some view other than the start can take the focus, tab navigation
/// stops at a view that can take it, never back at the start.
pub proof fn tab_navigation_finds_a_focusable_view(
    t: TreeModel,
    backwards: bool,
    focusable: Seq<ViewId>,
    start: ViewId,
    k: nat,
    v: ViewId,
)
    requires
        t.wf(),
        t.valid(start),
        t.valid(v),
        v != start,
        focusable.contains(v),
        tab_stops_at(t, root_id(), backwards, focusable, start, k),
    ensures
        tab_walk(t, root_id(), backwards, start, k) != start,
        focusable.contains(tab_walk(t, root_id(), backwards, start, k)),
{
    tab_walk_visits_every_view(t, backwards, start, v);
    let j = choose|j: nat|
        1 <= j && #[trigger] tab_walk(t, root_id(), backwards, start, j) == v && forall|i: nat|
            1 <= i < j ==> #[trigger] tab_walk(t, root_id(), backwards, start, i) != start;
    if k < j {
        assert(tab_walk(t, root_id(), backwards, start, k) != start);
    } else if k > j {
        assert(!focusable.contains(tab_walk(t, root_id(), backwards, start, j)));
    }
}

/// One step of tab navigation.
fn tab_iter(tree: &ViewTree, root_view: ViewId, backwards: bool, id: ViewId) -> (r: ViewId)
    requires
        tree.wf(),
        tree@.valid(root_view),
        tree@.valid(id),
    ensures
        r == tab_step(tree@, root_view, backwards, id),
{
    if backwards {
        match view_tree_previous(tree, root_view, id) {
            Some(p) => p,
            None => view_nested_last_child(tree, root_view),
        }
    } else {
        match view_tree_next(tree, id) {
            Some(n) => n,
            None => root_view,
        }
    }
}

/// Tab navigation finds the next or previous view that can take the focus
/// in tree order, starting from the focus (else the previous focus, else
/// the root) and coming back to the start if no other view can take it;
/// the view found gets the focus, moved by the keyboard.
pub fn view_tab_navigation(
    tree: &ViewTree,
    root_view: ViewId,
    app_state: &mut FocusState,
    backwards: bool,
)
    requires
        tree.wf(),
        root_view == root_id(),
        tree@.valid(tab_start(*old(app_state), root_view)),
    ensures
        final(app_state).focus matches Some(r) && exists|k: nat|
            k <= tree@.len() && tab_walk(
                tree@,
                root_view,
                backwards,
                tab_start(*old(app_state), root_view),
                k,
            ) == r && tab_stops_at(
                tree@,
                root_view,
                backwards,
                old(app_state).focusable@,
                tab_start(*old(app_state), root_view),
                k,
            ),
        // the walk starts at the view that has the focus, whenever one has it
        old(app_state).focus matches Some(f) ==> final(app_state).focus matches Some(r)
            && tab_stops_first_at(
            tree@,
            root_view,
            backwards,
            old(app_state).focusable@,
            f,
            r,
        ),
        // else at the view that had the focus before
        (old(app_state).focus is None && old(app_state).prev_focus is Some) ==> (final(app_state).focus matches Some(r) && tab_stops_first_at(
            tree@,
            root_view,
            backwards,
            old(app_state).focusable@,
            old(app_state).prev_focus->0,
            r,
        )),
        // else at the root
        (old(app_state).focus is None && old(app_state).prev_focus is None) ==> (final(app_state).focus matches Some(r) && tab_stops_first_at(
            tree@,
            root_view,
            backwards,
            old(app_state).focusable@,
            root_view,
            r,
        )),
        final(app_state).prev_focus == (if old(app_state).focus is Some {
            old(app_state).focus
        } else {
            old(app_state).prev_focus
        }),
        final(app_state).keyboard_navigation,
        final(app_state).focusable == old(app_state).focusable,
{
    let start = match app_state.focus {
        Some(f) => f,
        None => match app_state.prev_focus {
            Some(p) => p,
            None => root_view,
        },
    };
    let ghost t = tree@;
    proof {
        tab_walk_returns(t, backwards, start);
    }
    let ghost p = choose|p: nat|
        1 <= p <= t.len() && #[trigger] tab_walk(t, root_id(), backwards, start, p) == start;
    let mut new_focus = tab_iter(tree, root_view, backwards, start);
    let ghost mut k: nat = 1;
    proof {
        assert(tab_walk(t, root_view, backwards, start, 0) == start);
        lemma_walk_valid(t, backwards, start, 1);
    }
    while new_focus != start && !app_state.can_focus(new_focus)
        invariant
            tree.wf(),
            t == tree@,
            root_view == root_id(),
            t.valid(start),
            1 <= k <= p <= t.len(),
            tab_walk(t, root_view, backwards, start, p) == start,
            new_focus == tab_walk(t, root_view, backwards, start, k),
            t.valid(new_focus),
            forall|j: nat|
                1 <= j < k ==> #[trigger] tab_walk(t, root_view, backwards, start, j) != start
                    && !app_state.focusable@.contains(tab_walk(t, root_view, backwards, start, j)),
        decreases p - k,
    {
        new_focus = tab_iter(tree, root_view, backwards, new_focus);
        proof {
            k = k + 1;
            lemma_walk_valid(t, backwards, start, k);
        }
    }
    app_state.clear_focus();
    app_state.update_focus(new_focus, true);
}

} // verus!
