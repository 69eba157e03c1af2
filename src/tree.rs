use vstd::prelude::*;

use crate::registry::WidgetTag;
use crate::style::{WidgetBundle, WidgetStyle};

verus! {

/// Handle of one node of a widget tree.
#[derive(Clone, Copy, Debug, PartialEq, Eq, Hash, Structural)]
pub struct Entity(pub usize);

/// One node of a widget tree: its kind, layout configuration, kind-specific
/// data, and its place in the tree.
pub struct WidgetNode<W> {
    pub tag: WidgetTag,
    pub style: WidgetStyle,
    pub widget: W,
    pub parent: Option<usize>,
    pub children: Vec<usize>,
}

/// An owned forest of widget nodes, addressed by [`Entity`] handles.
///
/// A node is always created after its parent, so every child's index is
/// greater than its parent's; a child lists its parent, and a parent lists
/// each of its children exactly once, in the order in which they were added.
pub struct WidgetTree<W> {
    nodes: Vec<WidgetNode<W>>,
}

impl<W> WidgetTree<W> {
    /// The nodes, indexed by their handles.
    pub closed spec fn nodes(&self) -> Seq<WidgetNode<W>> {
        self.nodes@
    }

    pub open spec fn node_count(&self) -> nat {
        self.nodes().len()
    }

    /// The children of node `n`, in order.
    pub open spec fn children_of(&self, n: int) -> Seq<usize> {
        self.nodes()[n].children@
    }

    pub open spec fn parent_of(&self, n: int) -> Option<usize> {
        self.nodes()[n].parent
    }

    /// The links between nodes form a forest in which children come after
    /// their parent.
    pub open spec fn wf(&self) -> bool {
        &&& self.node_count() <= usize::MAX
        &&& forall|n: int, k: int|
            0 <= n < self.node_count() && 0 <= k < self.children_of(n).len() ==> n < #[trigger] self.children_of(
                n,
            )[k] < self.node_count() && self.parent_of(self.children_of(n)[k] as int) == Some(n as usize)
        &&& forall|n: int| 0 <= n < self.node_count() ==> (#[trigger] self.children_of(n)).no_duplicates()
        &&& forall|n: int|
            0 <= n < self.node_count() && (#[trigger] self.parent_of(n)) is Some ==> {
                let p = self.parent_of(n)->0 as int;
                p < n && self.children_of(p).contains(n as usize)
            }
    }

    /// `other` has the same nodes and links as this tree.
    pub open spec fn same_links(&self, other: &Self) -> bool {
        &&& other.node_count() == self.node_count()
        &&& forall|n: int|
            0 <= n < self.node_count() ==> #[trigger] other.children_of(n) == self.children_of(n)
        &&& forall|n: int| 0 <= n < self.node_count() ==> #[trigger] other.parent_of(n) == self.parent_of(n)
    }

    proof fn lemma_same_links(&self, other: &Self)
        requires
            self.wf(),
            self.same_links(other),
        ensures
            other.wf(),
    {
        assert forall|n: int, k: int|
            0 <= n < other.node_count() && 0 <= k < other.children_of(n).len() implies n
            < #[trigger] other.children_of(n)[k] < other.node_count() && other.parent_of(
            other.children_of(n)[k] as int,
        ) == Some(n as usize) by {
            assert(self.children_of(n)[k] == other.children_of(n)[k]);
            assert(self.parent_of(self.children_of(n)[k] as int) == other.parent_of(
                self.children_of(n)[k] as int,
            ));
        }
        assert forall|n: int| 0 <= n < other.node_count() implies (#[trigger] other.children_of(
            n,
        )).no_duplicates() by {
            assert(self.children_of(n) == other.children_of(n));
        }
        assert forall|n: int|
            0 <= n < other.node_count() && (#[trigger] other.parent_of(n)) is Some implies {
            let p = other.parent_of(n)->0 as int;
            p < n && other.children_of(p).contains(n as usize)
        } by {
            assert(self.parent_of(n) == other.parent_of(n));
            let p = other.parent_of(n)->0 as int;
            assert(self.children_of(p) == other.children_of(p));
        }
    }

    /// An empty tree.
    pub fn new() -> (r: Self)
        ensures
            r.wf(),
            r.node_count() == 0,
    {
        WidgetTree { nodes: Vec::new() }
    }

    /// Number of nodes.
    pub fn len(&self) -> (r: usize)
        ensures
            r == self.node_count(),
    {
        self.nodes.len()
    }

    /// The node with handle `entity`.
    pub fn node(&self, entity: Entity) -> (r: &WidgetNode<W>)
        requires
            entity.0 < self.node_count(),
        ensures
            *r == self.nodes()[entity.0 as int],
    {
        &self.nodes[entity.0]
    }

    /// Add a node without a parent, of kind `tag`, and return its handle.
    pub fn spawn(&mut self, tag: WidgetTag, bundle: WidgetBundle<W>) -> (r: Entity)
        requires
            old(self).wf(),
        ensures
            final(self).wf(),
            r.0 == old(self).node_count(),
            final(self).node_count() == old(self).node_count() + 1,
            forall|n: int| 0 <= n < old(self).node_count() ==> final(self).nodes()[n] == old(self).nodes()[n],
            final(self).nodes()[r.0 as int].tag == tag,
            final(self).nodes()[r.0 as int].style == bundle.style,
            final(self).nodes()[r.0 as int].widget == bundle.widget,
            final(self).nodes()[r.0 as int].parent == None::<usize>,
            final(self).nodes()[r.0 as int].children@.len() == 0,
    {
        let id = self.nodes.len();
        let node = WidgetNode {
            tag,
            style: bundle.style,
            widget: bundle.widget,
            parent: None,
            children: Vec::new(),
        };
        self.nodes.push(node);
        proof {
            assert(self.nodes@.len() == self.nodes.len());
            assert(self.nodes()[id as int] == node);
            assert forall|n: int| 0 <= n < old(self).node_count() implies self.nodes()[n] == old(
                self,
            ).nodes()[n] by {}
            assert forall|n: int, k: int|
                0 <= n < self.node_count() && 0 <= k < self.children_of(n).len() implies n
                < #[trigger] self.children_of(n)[k] < self.node_count() && self.parent_of(
                self.children_of(n)[k] as int,
            ) == Some(n as usize) by {
                assert(n < id);
                assert(self.children_of(n) == old(self).children_of(n));
            }
            assert forall|n: int| 0 <= n < self.node_count() implies (#[trigger] self.children_of(
                n,
            )).no_duplicates() by {
                if n < id {
                    assert(self.children_of(n) == old(self).children_of(n));
                }
            }
            assert forall|n: int|
                0 <= n < self.node_count() && (#[trigger] self.parent_of(n)) is Some implies {
                let p = self.parent_of(n)->0 as int;
                p < n && self.children_of(p).contains(n as usize)
            } by {
                let p = self.parent_of(n)->0 as int;
                assert(n < id);
                assert(self.parent_of(n) == old(self).parent_of(n));
                assert(self.children_of(p) == old(self).children_of(p));
            }
        }
        Entity(id)
    }

    /// Add a node of kind `tag` as the last child of `parent`, and return its
    /// handle; `None`, with the tree unchanged, when `parent` is no node.
    pub fn spawn_child(&mut self, parent: Entity, tag: WidgetTag, bundle: WidgetBundle<W>) -> (r:
        Option<Entity>)
        requires
            old(self).wf(),
        ensures
            final(self).wf(),
            parent.0 >= old(self).node_count() ==> r == None::<Entity> && *final(self) == *old(self),
            parent.0 < old(self).node_count() ==> {
                &&& r == Some(Entity(old(self).node_count() as usize))
                &&& final(self).node_count() == old(self).node_count() + 1
                &&& forall|n: int|
                    0 <= n < old(self).node_count() && n != parent.0 ==> final(self).nodes()[n] == old(
                        self,
                    ).nodes()[n]
                &&& final(self).children_of(parent.0 as int) == old(self).children_of(
                    parent.0 as int,
                ).push(old(self).node_count() as usize)
                &&& final(self).nodes()[parent.0 as int].tag == old(self).nodes()[parent.0 as int].tag
                &&& final(self).nodes()[parent.0 as int].style == old(
                    self,
                ).nodes()[parent.0 as int].style
                &&& final(self).nodes()[parent.0 as int].widget == old(
                    self,
                ).nodes()[parent.0 as int].widget
                &&& final(self).nodes()[parent.0 as int].parent == old(
                    self,
                ).nodes()[parent.0 as int].parent
                &&& final(self).nodes()[old(self).node_count() as int].tag == tag
                &&& final(self).nodes()[old(self).node_count() as int].style == bundle.style
                &&& final(self).nodes()[old(self).node_count() as int].widget == bundle.widget
                &&& final(self).nodes()[old(self).node_count() as int].parent == Some(parent.0)
                &&& final(self).nodes()[old(self).node_count() as int].children@.len() == 0
            },
    {
        if parent.0 >= self.nodes.len() {
            return None;
        }
        let id = self.nodes.len();
        let node = WidgetNode {
            tag,
            style: bundle.style,
            widget: bundle.widget,
            parent: Some(parent.0),
            children: Vec::new(),
        };
        self.nodes.push(node);
        self.nodes[parent.0].children.push(id);
        proof {
            assert(self.nodes@.len() == self.nodes.len());
            let p = parent.0 as int;
            assert(self.nodes()[id as int] == node);
            assert forall|n: int| 0 <= n < old(self).node_count() && n != p implies self.nodes()[n]
                == old(self).nodes()[n] by {}
            assert forall|n: int, k: int|
                0 <= n < self.node_count() && 0 <= k < self.children_of(n).len() implies n
                < #[trigger] self.children_of(n)[k] < self.node_count() && self.parent_of(
                self.children_of(n)[k] as int,
            ) == Some(n as usize) by {
                if n != p {
                    assert(n < id);
                    assert(self.children_of(n) == old(self).children_of(n));
                } else if k < old(self).children_of(p).len() {
                    assert(self.children_of(n)[k] == old(self).children_of(n)[k]);
                }
            }
            assert forall|n: int| 0 <= n < self.node_count() implies (#[trigger] self.children_of(
                n,
            )).no_duplicates() by {
                if n == p {
                    assert forall|i: int| 0 <= i < old(self).children_of(p).len() implies old(
                        self,
                    ).children_of(p)[i] != id by {
                        assert(old(self).children_of(p)[i] < old(self).node_count());
                    }
                    assert(self.children_of(p) == old(self).children_of(p).push(id));
                } else if n < id {
                    assert(self.children_of(n) == old(self).children_of(n));
                }
            }
            assert forall|n: int|
                0 <= n < self.node_count() && (#[trigger] self.parent_of(n)) is Some implies {
                let q = self.parent_of(n)->0 as int;
                q < n && self.children_of(q).contains(n as usize)
            } by {
                let q = self.parent_of(n)->0 as int;
                if n == id {
                    assert(self.children_of(p).last() == id);
                } else {
                    assert(self.parent_of(n) == old(self).parent_of(n));
                    if q == p {
                        let i = choose|i: int|
                            0 <= i < old(self).children_of(p).len() && old(self).children_of(p)[i]
                                == n as usize;
                        assert(self.children_of(p)[i] == n as usize);
                    } else {
                        assert(self.children_of(q) == old(self).children_of(q));
                    }
                }
            }
        }
        Some(Entity(id))
    }
    /// The kind-specific data of `entity`, for its draw operation or any other
    /// system to update between frames.
    pub fn widget_mut(&mut self, entity: Entity) -> (r: &mut W)
        requires
            old(self).wf(),
            entity.0 < old(self).node_count(),
        ensures
            *r == old(self).nodes()[entity.0 as int].widget,
            final(self).wf(),
            final(self).node_count() == old(self).node_count(),
            forall|n: int|
                0 <= n < old(self).node_count() && n != entity.0 ==> final(self).nodes()[n] == old(
                    self,
                ).nodes()[n],
            final(self).nodes()[entity.0 as int].widget == *final(r),
            final(self).nodes()[entity.0 as int].tag == old(self).nodes()[entity.0 as int].tag,
            final(self).nodes()[entity.0 as int].style == old(self).nodes()[entity.0 as int].style,
            final(self).nodes()[entity.0 as int].parent == old(self).nodes()[entity.0 as int].parent,
            final(self).nodes()[entity.0 as int].children == old(
                self,
            ).nodes()[entity.0 as int].children,
    {
        proof {
            assert forall|t2: WidgetTree<W>| #[trigger]
                t2.wf() || (t2.same_links(self) && self.wf()) implies t2.wf() by {
                if !t2.wf() {
                    self.lemma_same_links(&t2);
                }
            }
        }
        &mut self.nodes[entity.0].widget
    }

    /// Replace the layout configuration of `entity`.
    pub fn set_style(&mut self, entity: Entity, style: WidgetStyle)
        requires
            old(self).wf(),
            entity.0 < old(self).node_count(),
        ensures
            final(self).wf(),
            final(self).node_count() == old(self).node_count(),
            forall|n: int|
                0 <= n < old(self).node_count() && n != entity.0 ==> final(self).nodes()[n] == old(
                    self,
                ).nodes()[n],
            final(self).nodes()[entity.0 as int].style == style,
            final(self).nodes()[entity.0 as int].widget == old(self).nodes()[entity.0 as int].widget,
            final(self).nodes()[entity.0 as int].tag == old(self).nodes()[entity.0 as int].tag,
            final(self).nodes()[entity.0 as int].parent == old(self).nodes()[entity.0 as int].parent,
            final(self).nodes()[entity.0 as int].children == old(
                self,
            ).nodes()[entity.0 as int].children,
    {
        self.nodes[entity.0].style = style;
        proof {
            assert(old(self).same_links(self));
            old(self).lemma_same_links(self);
        }
    }

    /// Remove every node. Each node lies in the subtree of a node without a
    /// parent, so this removes every root-level subtree with all it holds.
    pub fn despawn_all(&mut self)
        ensures
            final(self).wf(),
            final(self).node_count() == 0,
    {
        self.nodes.clear();
    }
}

/// Command that removes every root-level widget subtree, as done when the UI
/// switches from one screen to another.
pub struct DespawnUI;

impl DespawnUI {
    /// Apply the command to `tree`.
    pub fn apply<W>(self, tree: &mut WidgetTree<W>)
        ensures
            final(tree).wf(),
            final(tree).node_count() == 0,
    {
        tree.despawn_all();
    }
}

/// Node `m` is node `n` or one of its descendants: following parents up from
/// `m` reaches `n`.
pub open spec fn in_subtree<W>(t: &WidgetTree<W>, n: int, m: int) -> bool
    decreases m,
{
    if m == n {
        true
    } else if 0 <= m < t.node_count() && t.parent_of(m) is Some && (t.parent_of(m)->0 as int) < m {
        in_subtree(t, n, t.parent_of(m)->0 as int)
    } else {
        false
    }
}


/// Descendants come after their ancestors in index order.
pub(crate) proof fn lemma_subtree_above<W>(t: &WidgetTree<W>, n: int, m: int)
    requires
        in_subtree(t, n, m),
    ensures
        n <= m,
    decreases m,
{
    if m != n {
        lemma_subtree_above(t, n, t.parent_of(m)->0 as int);
    }
}

/// A descendant of a child of `n` is a descendant of `n`.
pub(crate) proof fn lemma_subtree_through_child<W>(t: &WidgetTree<W>, n: int, c: int, m: int)
    requires
        t.wf(),
        0 <= n < c < t.node_count(),
        t.parent_of(c) == Some(n as usize),
        in_subtree(t, c, m),
    ensures
        in_subtree(t, n, m),
    decreases m,
{
    if m == c {
        assert(in_subtree(t, n, n));
        assert(t.parent_of(c)->0 as int == n);
    } else if m != n {
        let p = t.parent_of(m)->0 as int;
        assert(in_subtree(t, c, p));
        lemma_subtree_through_child(t, n, c, p);
        assert(in_subtree(t, n, p));
    }
}

/// Two nodes whose subtrees share a node lie on one line of descent.
pub(crate) proof fn lemma_subtrees_nested<W>(t: &WidgetTree<W>, a: int, b: int, m: int)
    requires
        in_subtree(t, a, m),
        in_subtree(t, b, m),
    ensures
        in_subtree(t, a, b) || in_subtree(t, b, a),
    decreases m,
{
    if m != a && m != b {
        lemma_subtrees_nested(t, a, b, t.parent_of(m)->0 as int);
    }
}

/// The subtrees of two distinct children of one node share no node.
pub(crate) proof fn lemma_sibling_subtrees_disjoint<W>(t: &WidgetTree<W>, n: int, i: int, j: int, m: int)
    requires
        t.wf(),
        0 <= n < t.node_count(),
        0 <= i < t.children_of(n).len(),
        0 <= j < t.children_of(n).len(),
        i != j,
    ensures
        !(in_subtree(t, t.children_of(n)[i] as int, m) && in_subtree(t, t.children_of(n)[j] as int, m)),
{
    let a = t.children_of(n)[i] as int;
    let b = t.children_of(n)[j] as int;
    if in_subtree(t, a, m) && in_subtree(t, b, m) {
        assert(t.children_of(n).no_duplicates());
        lemma_subtrees_nested(t, a, b, m);
        if in_subtree(t, a, b) {
            lemma_subtree_above(t, a, t.parent_of(b)->0 as int);
        } else {
            lemma_subtree_above(t, b, t.parent_of(a)->0 as int);
        }
    }
}

} // verus!
