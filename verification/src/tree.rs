//! The view tree: every view has an id, at most one parent and an ordered
//! list of children. The first view of a tree is its root.
use vstd::prelude::*;

verus! {

/// The handle of a view inside a [`ViewTree`].
#[derive(Clone, Copy, PartialEq, Eq, Structural, Debug, Hash)]
pub struct ViewId(pub usize);

/// The id of the root of every tree.
pub open spec fn root_id() -> ViewId {
    ViewId(0)
}

/// The abstract shape of a view tree: for each view (by index) its parent,
/// its children in order, and its depth (the number of steps to the root).
pub struct TreeModel {
    pub parents: Seq<Option<ViewId>>,
    pub children: Seq<Seq<ViewId>>,
    pub depth: Seq<nat>,
}

impl TreeModel {
    pub open spec fn len(self) -> nat {
        self.children.len()
    }

    pub open spec fn valid(self, v: ViewId) -> bool {
        v.0 < self.len()
    }

    pub open spec fn parent(self, v: ViewId) -> Option<ViewId> {
        self.parents[v.0 as int]
    }

    pub open spec fn children_of(self, v: ViewId) -> Seq<ViewId> {
        self.children[v.0 as int]
    }

    pub open spec fn depth_of(self, v: ViewId) -> nat {
        self.depth[v.0 as int]
    }

    /// The tables fit together: one entry per view in each, ids that fit in
    /// a `usize`, and every parent is a view of the tree.
    pub open spec fn indexed(self) -> bool {
        &&& self.len() <= usize::MAX
        &&& self.parents.len() == self.len()
        &&& self.depth.len() == self.len()
        &&& forall|v: ViewId|
            self.valid(v) && (#[trigger] self.parent(v)) is Some ==> self.valid(self.parent(v)->0)
    }

    /// The tree is well formed: one root, every other view has a parent
    /// one level above it and appears exactly once among that parent's
    /// children, and a view lists as children only views whose parent it is.
    pub open spec fn wf(self) -> bool {
        &&& 1 <= self.len() <= usize::MAX
        &&& self.parents.len() == self.len()
        &&& self.depth.len() == self.len()
        &&& self.parent(root_id()) is None
        &&& self.depth_of(root_id()) == 0
        &&& forall|v: ViewId| self.valid(v) && v != root_id() ==> (#[trigger] self.parent(v)) is Some
        &&& forall|v: ViewId|
            #![trigger self.parent(v)]
            self.valid(v) && self.parent(v) is Some ==> {
                &&& self.valid(self.parent(v)->0)
                &&& self.depth_of(v) == self.depth_of(self.parent(v)->0) + 1
                &&& self.children_of(self.parent(v)->0).contains(v)
            }
        &&& forall|v: ViewId| self.valid(v) ==> #[trigger] self.depth_of(v) < self.len()
        &&& forall|v: ViewId| self.valid(v) ==> (#[trigger] self.children_of(v)).no_duplicates()
        &&& forall|v: ViewId, j: int|
            #![trigger self.children_of(v)[j]]
            self.valid(v) && 0 <= j < self.children_of(v).len() ==> {
                &&& self.valid(self.children_of(v)[j])
                &&& self.parent(self.children_of(v)[j]) == Some(v)
            }
    }
}

/// A tree of views, stored by index.
pub struct ViewTree {
    parents: Vec<Option<ViewId>>,
    children: Vec<Vec<ViewId>>,
    depth: Ghost<Seq<nat>>,
}

impl View for ViewTree {
    type V = TreeModel;

    closed spec fn view(&self) -> TreeModel {
        TreeModel {
            parents: self.parents@,
            children: self.children@.map_values(|c: Vec<ViewId>| c@),
            depth: self.depth@,
        }
    }
}

impl ViewTree {
    pub open spec fn wf(&self) -> bool {
        self@.wf()
    }

    pub open spec fn indexed(&self) -> bool {
        self@.indexed()
    }

    /// A tree that holds only its root.
    pub fn new() -> (tree: ViewTree)
        ensures
            tree.wf(),
            tree@.len() == 1,
            tree@.children_of(root_id()) == Seq::<ViewId>::empty(),
    {
        let mut parents: Vec<Option<ViewId>> = Vec::new();
        parents.push(None);
        let mut children: Vec<Vec<ViewId>> = Vec::new();
        children.push(Vec::new());
        let depth: Ghost<Seq<nat>> = Ghost(Seq::<nat>::empty().push(0nat));
        let tree = ViewTree { parents, children, depth };
        assert(tree@.children =~= seq![Seq::<ViewId>::empty()]);
        tree
    }

    /// The root of the tree.
    pub fn root(&self) -> (r: ViewId)
        ensures
            r == root_id(),
    {
        ViewId(0)
    }

    /// The number of views in the tree.
    pub fn len(&self) -> (n: usize)
        requires
            self.indexed(),
        ensures
            n == self@.len(),
    {
        self.children.len()
    }

    /// The parent of `id`, `None` for the root.
    pub fn parent(&self, id: ViewId) -> (p: Option<ViewId>)
        requires
            self.indexed(),
            self@.valid(id),
        ensures
            p == self@.parent(id),
    {
        self.parents[id.0]
    }

    /// A copy of the children of `id`, in order.
    pub fn children(&self, id: ViewId) -> (cs: Vec<ViewId>)
        requires
            self.indexed(),
            self@.valid(id),
        ensures
            cs@ == self@.children_of(id),
    {
        let src = &self.children[id.0];
        let mut cs: Vec<ViewId> = Vec::new();
        let mut j: usize = 0;
        while j < src.len()
            invariant
                j <= src@.len(),
                cs@ == src@.subrange(0, j as int),
            decreases src@.len() - j,
        {
            cs.push(src[j]);
            j = j + 1;
            assert(cs@ =~= src@.subrange(0, j as int));
        }
        assert(src@.subrange(0, src@.len() as int) =~= src@);
        cs
    }

    /// Adds a new view as the last child of `parent` and returns its id.
    pub fn add_child(&mut self, parent: ViewId) -> (c: ViewId)
        requires
            old(self).wf(),
            old(self)@.valid(parent),
            old(self)@.len() < usize::MAX,
        ensures
            final(self).wf(),
            c == ViewId(old(self)@.len() as usize),
            final(self)@.parents == old(self)@.parents.push(Some(parent)),
            final(self)@.children == old(self)@.children.update(
                parent.0 as int,
                old(self)@.children_of(parent).push(c),
            ).push(Seq::<ViewId>::empty()),
            final(self)@.depth == old(self)@.depth.push(old(self)@.depth_of(parent) + 1),
    {
        let ghost old_model = self@;
        let n = self.children.len();
        let c = ViewId(n);
        let mut cs = self.children(parent);
        cs.push(c);
        self.children.set(parent.0, cs);
        self.children.push(Vec::new());
        self.parents.push(Some(parent));
        let depth: Ghost<Seq<nat>> = Ghost(self.depth@.push(old_model.depth_of(parent) + 1));
        self.depth = depth;
        let ghost new_model = self@;
        assert(new_model.children =~= old_model.children.update(
            parent.0 as int,
            old_model.children_of(parent).push(c),
        ).push(Seq::<ViewId>::empty()));
        assert forall|v: ViewId| #[trigger] new_model.valid(v) implies new_model.children_of(v)
            == (if v == parent {
            old_model.children_of(parent).push(c)
        } else if v == c {
            Seq::<ViewId>::empty()
        } else {
            old_model.children_of(v)
        }) by {}
        assert(new_model.wf()) by {
            assert(!old_model.children_of(parent).contains(c)) by {
                if old_model.children_of(parent).contains(c) {
                    let k = choose|k: int|
                        0 <= k < old_model.children_of(parent).len()
                            && old_model.children_of(parent)[k] == c;
                    assert(old_model.valid(old_model.children_of(parent)[k]));
                }
            }
            assert forall|v: ViewId| new_model.valid(v) implies (#[trigger] new_model.children_of(
                v,
            )).no_duplicates() by {
                assert(new_model.valid(v));
                if v == parent {
                    let s = old_model.children_of(parent).push(c);
                    assert(old_model.valid(v));
                    assert(old_model.children_of(v).no_duplicates());
                    assert forall|i: int, j: int|
                        0 <= i < s.len() && 0 <= j < s.len() && i != j implies s[i] != s[j] by {
                        if i == s.len() - 1 {
                            assert(s[j] == old_model.children_of(parent)[j]);
                        } else if j == s.len() - 1 {
                            assert(s[i] == old_model.children_of(parent)[i]);
                        }
                    }
                } else if v != c {
                    assert(old_model.valid(v));
                }
            }
            assert forall|v: ViewId|
                #![trigger new_model.parent(v)]
                new_model.valid(v) && new_model.parent(v) is Some implies {
                &&& new_model.valid(new_model.parent(v)->0)
                &&& new_model.depth_of(v) == new_model.depth_of(new_model.parent(v)->0) + 1
                &&& new_model.children_of(new_model.parent(v)->0).contains(v)
            } by {
                assert(new_model.valid(v));
                if v == c {
                    assert(new_model.valid(parent));
                    assert(new_model.children_of(parent).last() == c);
                } else {
                    assert(old_model.valid(v));
                    let p = old_model.parent(v)->0;
                    assert(new_model.valid(p));
                    assert(old_model.children_of(p).contains(v));
                    let k = choose|k: int|
                        0 <= k < old_model.children_of(p).len() && old_model.children_of(p)[k]
                            == v;
                    assert(new_model.children_of(p)[k] == v);
                }
            }
            assert forall|v: ViewId, j: int|
                #![trigger new_model.children_of(v)[j]]
                new_model.valid(v) && 0 <= j < new_model.children_of(v).len() implies {
                &&& new_model.valid(new_model.children_of(v)[j])
                &&& new_model.parent(new_model.children_of(v)[j]) == Some(v)
            } by {
                assert(new_model.valid(v));
                if v == parent && j == old_model.children_of(v).len() {
                } else if v != c {
                    assert(old_model.valid(v));
                    assert(new_model.children_of(v)[j] == old_model.children_of(v)[j]);
                }
            }
            assert forall|v: ViewId| new_model.valid(v) implies #[trigger] new_model.depth_of(v)
                < new_model.len() by {
                if v != c {
                    assert(v.0 < old_model.len());
                    assert(old_model.valid(v));
                    assert(new_model.depth_of(v) == old_model.depth_of(v));
                } else {
                    assert(old_model.valid(parent));
                    assert(new_model.depth_of(v) == old_model.depth_of(parent) + 1);
                }
            }
            assert forall|v: ViewId|
                new_model.valid(v) && v != root_id() implies (#[trigger] new_model.parent(
                v,
            )) is Some by {
                if v != c {
                    assert(v.0 < old_model.len());
                    assert(old_model.valid(v));
                    assert(new_model.parent(v) == old_model.parent(v));
                }
            }
        }
        c
    }
}

} // verus!
