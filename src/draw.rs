use vstd::prelude::*;

use crate::geometry::{align_rect, aligned_rect, Rect, Size};
use crate::layout::split_area;
use crate::registry::{DrawSystemId, WidgetRegistry};
use crate::style::WidgetStyle;
use crate::tree::{
    in_subtree, lemma_sibling_subtrees_disjoint, lemma_subtree_above, lemma_subtree_through_child,
    Entity, WidgetTree,
};
use ratatui::layout::Constraint;

verus! {

/// What one draw operation is given: the node it draws, the node's style and
/// the area allotted to it.
///
/// The render surface is not part of the context: the operation passed to
/// [`WidgetDrawContext::draw`] or [`WidgetDrawContext::draw_sized`] borrows it
/// for the length of that one call.
#[derive(Clone, Copy, Debug)]
pub struct WidgetDrawContext {
    pub entity: Entity,
    pub style: WidgetStyle,
    pub rect: Rect,
}

impl WidgetDrawContext {
    /// The context of node `entity`, with style `style` and area `rect`.
    pub fn new(entity: Entity, rect: Rect, style: WidgetStyle) -> (r: WidgetDrawContext)
        ensures
            r == (WidgetDrawContext { entity, style, rect }),
    {
        WidgetDrawContext { entity, style, rect }
    }

    /// The node being drawn.
    pub fn entity(&self) -> (r: Entity)
        ensures
            r == self.entity,
    {
        self.entity
    }

    /// The area available for drawing this node.
    pub fn rect(&self) -> (r: Rect)
        ensures
            r == self.rect,
    {
        self.rect
    }

    /// The area in which content of intrinsic size `size` is drawn, aligned
    /// by the node's style.
    pub fn sized_rect(&self, size: Size) -> (r: Rect)
        ensures
            r == aligned_rect(self.rect, size, self.style.align_horizontal, self.style.align_vertical),
    {
        align_rect(self.rect, size, self.style.align_horizontal, self.style.align_vertical)
    }

    /// Draw through `op`, which receives the whole allotted area.
    pub fn draw<R, F: FnOnce(Rect) -> R>(&self, op: F) -> (r: R)
        requires
            op.requires((self.rect,)),
        ensures
            op.ensures((self.rect,), r),
    {
        op(self.rect)
    }

    /// Draw content of intrinsic size `size` through `op`, which receives the
    /// aligned sub-area of the allotted area.
    pub fn draw_sized<R, F: FnOnce(Rect) -> R>(&self, size: Size, op: F) -> (r: R)
        requires
            op.requires(
                (aligned_rect(self.rect, size, self.style.align_horizontal, self.style.align_vertical),),
            ),
        ensures
            op.ensures(
                (aligned_rect(self.rect, size, self.style.align_horizontal, self.style.align_vertical),),
                r,
            ),
    {
        let area = self.sized_rect(size);
        op(area)
    }
}

/// One scheduled invocation of a draw operation.
#[derive(Debug)]
pub struct DrawCall {
    /// The operation to run.
    pub system: DrawSystemId,
    /// What the operation is given.
    pub context: WidgetDrawContext,
    /// The areas that this node's layout pass gave its children, in the
    /// children's order.
    pub child_areas: Vec<Rect>,
}

/// A draw call as a mathematical value.
pub struct DrawCallView {
    pub system: DrawSystemId,
    pub context: WidgetDrawContext,
    pub child_areas: Seq<Rect>,
}

impl View for DrawCall {
    type V = DrawCallView;

    open spec fn view(&self) -> DrawCallView {
        DrawCallView { system: self.system, context: self.context, child_areas: self.child_areas@ }
    }
}

/// A sequence of draw calls as mathematical values.
pub open spec fn calls_view(calls: Seq<DrawCall>) -> Seq<DrawCallView> {
    calls.map_values(|c: DrawCall| c@)
}

/// The constraints of node `n`'s children, in order.
pub open spec fn child_constraints<W>(t: &WidgetTree<W>, n: int) -> Seq<Constraint> {
    t.children_of(n).map_values(|c: usize| t.nodes()[c as int].style.constraint)
}

/// An outcome of the layout passes of one frame: for each node, the areas its
/// pass gave its children, one per child.
pub open spec fn layout_fits<W>(t: &WidgetTree<W>, layout: spec_fn(int) -> Seq<Rect>) -> bool {
    forall|m: int| 0 <= m < t.node_count() ==> (#[trigger] layout(m)).len() == t.children_of(m).len()
}

/// The call that draws node `n` with the operation `system` in `area`, its
/// children having been given `child_areas`.
pub open spec fn call_of<W>(
    t: &WidgetTree<W>,
    system: DrawSystemId,
    n: int,
    area: Rect,
    child_areas: Seq<Rect>,
) -> DrawCallView {
    DrawCallView {
        system,
        context: WidgetDrawContext { entity: Entity(n as usize), style: t.nodes()[n].style, rect: area },
        child_areas,
    }
}

/// The calls that draw the subtree of node `n` given `area`, when the frame's
/// layout passes come out as `layout`: depth-first and parents before
/// children; nothing when `n`'s kind has no draw operation, else `n`'s own
/// call followed by those of its children in order, the child at position `i`
/// being drawn in the `i`-th area of `n`'s layout pass.
pub open spec fn subtree_calls<W, Op>(
    t: &WidgetTree<W>,
    reg: &WidgetRegistry<Op>,
    n: int,
    area: Rect,
    layout: spec_fn(int) -> Seq<Rect>,
) -> Seq<DrawCallView>
    decreases t.node_count() - n, t.children_of(n).len() + 1,
{
    if 0 <= n < t.node_count() {
        match reg.lookup(t.nodes()[n].tag) {
            None => Seq::empty(),
            Some(system) => seq![call_of(t, system, n, area, layout(n))] + children_calls(
                t,
                reg,
                n,
                layout(n),
                t.children_of(n).len() as int,
                layout,
            ),
        }
    } else {
        Seq::empty()
    }
}

/// The calls that draw the subtrees of the first `k` children of node `n`,
/// the child at position `i` being given `areas[i]`.
pub open spec fn children_calls<W, Op>(
    t: &WidgetTree<W>,
    reg: &WidgetRegistry<Op>,
    n: int,
    areas: Seq<Rect>,
    k: int,
    layout: spec_fn(int) -> Seq<Rect>,
) -> Seq<DrawCallView>
    decreases t.node_count() - n, k,
{
    if 0 < k <= t.children_of(n).len() && 0 <= n < t.node_count() {
        let c = t.children_of(n)[k - 1] as int;
        children_calls(t, reg, n, areas, k - 1, layout) + if n < c < t.node_count() {
            subtree_calls(t, reg, c, areas[k - 1], layout)
        } else {
            Seq::empty()
        }
    } else {
        Seq::empty()
    }
}

/// A subtree's calls depend on the layout outcome of its own nodes only.
proof fn lemma_calls_frame<W, Op>(
    t: &WidgetTree<W>,
    reg: &WidgetRegistry<Op>,
    n: int,
    area: Rect,
    f: spec_fn(int) -> Seq<Rect>,
    g: spec_fn(int) -> Seq<Rect>,
)
    requires
        t.wf(),
        forall|m: int| #[trigger] in_subtree(t, n, m) ==> f(m) == g(m),
    ensures
        subtree_calls(t, reg, n, area, f) == subtree_calls(t, reg, n, area, g),
    decreases t.node_count() - n, t.children_of(n).len() + 1,
{
    if 0 <= n < t.node_count() {
        assert(in_subtree(t, n, n));
        let k = t.children_of(n).len() as int;
        assert forall|j: int, m: int|
            0 <= j < k && #[trigger] in_subtree(t, t.children_of(n)[j] as int, m) implies f(m) == g(
            m,
        ) by {
            lemma_subtree_through_child(t, n, t.children_of(n)[j] as int, m);
        }
        lemma_children_frame(t, reg, n, f(n), k, f, g);
    }
}

proof fn lemma_children_frame<W, Op>(
    t: &WidgetTree<W>,
    reg: &WidgetRegistry<Op>,
    n: int,
    areas: Seq<Rect>,
    k: int,
    f: spec_fn(int) -> Seq<Rect>,
    g: spec_fn(int) -> Seq<Rect>,
)
    requires
        t.wf(),
        0 <= n < t.node_count(),
        k <= t.children_of(n).len(),
        forall|j: int, m: int|
            0 <= j < k && #[trigger] in_subtree(t, t.children_of(n)[j] as int, m) ==> f(m) == g(m),
    ensures
        children_calls(t, reg, n, areas, k, f) == children_calls(t, reg, n, areas, k, g),
    decreases t.node_count() - n, k,
{
    if 0 < k {
        let c = t.children_of(n)[k - 1] as int;
        lemma_children_frame(t, reg, n, areas, k - 1, f, g);
        assert forall|m: int| #[trigger] in_subtree(t, c, m) implies f(m) == g(m) by {
            assert(in_subtree(t, t.children_of(n)[k - 1] as int, m));
        }
        lemma_calls_frame(t, reg, c, areas[k - 1], f, g);
    }
}

proof fn lemma_calls_view_push(calls: Seq<DrawCall>, call: DrawCall)
    ensures
        calls_view(calls.push(call)) == calls_view(calls).push(call@),
{
    assert(calls_view(calls.push(call)) =~= calls_view(calls).push(call@));
}

/// The nodes without a parent among the first `k`, in order.
pub open spec fn roots_upto<W>(t: &WidgetTree<W>, k: int) -> Seq<usize>
    decreases k,
{
    if k <= 0 {
        Seq::empty()
    } else if t.parent_of(k - 1) is None {
        roots_upto(t, k - 1).push((k - 1) as usize)
    } else {
        roots_upto(t, k - 1)
    }
}

/// The root of the tree: the node without a parent, when there is exactly one.
pub open spec fn single_root<W>(t: &WidgetTree<W>) -> Option<usize> {
    let roots = roots_upto(t, t.node_count() as int);
    if roots.len() == 1 {
        Some(roots[0])
    } else {
        None
    }
}

/// Append to `out` the calls that draw the subtree of `entity` given `area`.
fn draw_single<W, Op>(
    tree: &WidgetTree<W>,
    reg: &WidgetRegistry<Op>,
    entity: usize,
    area: Rect,
    out: &mut Vec<DrawCall>,
)
    requires
        tree.wf(),
        reg.wf(),
        entity < tree.node_count(),
    ensures
        exists|layout: spec_fn(int) -> Seq<Rect>|
            layout_fits(tree, layout) && calls_view(final(out)@) == calls_view(old(out)@)
                + subtree_calls(tree, reg, entity as int, area, layout),
    decreases tree.node_count() - entity, tree.children_of(entity as int).len() + 1,
{
    let ghost n = entity as int;
    let ghost blank = |m: int| Seq::new(tree.children_of(m).len(), |i: int| area);
    let node = tree.node(Entity(entity));
    let system = match reg.get_draw_system_id(node.tag) {
        None => {
            proof {
                assert(layout_fits(tree, blank));
                assert(calls_view(out@) =~= calls_view(old(out)@) + subtree_calls(
                    tree,
                    reg,
                    n,
                    area,
                    blank,
                ));
            }
            return ;
        },
        Some(system) => system,
    };
    let n_children = node.children.len();
    let mut constraints: Vec<Constraint> = Vec::new();
    let mut i: usize = 0;
    while i < n_children
        invariant
            tree.wf(),
            entity < tree.node_count(),
            n == entity as int,
            *node == tree.nodes()[n],
            n_children == tree.children_of(n).len(),
            0 <= i <= n_children,
            constraints@ == child_constraints(tree, n).take(i as int),
        decreases n_children - i,
    {
        let c = node.children[i];
        proof {
            assert(tree.children_of(n)[i as int] == c);
        }
        let child = tree.node(Entity(c));
        constraints.push(child.style.constraint);
        proof {
            assert(child_constraints(tree, n).take(i + 1) =~= child_constraints(tree, n).take(
                i as int,
            ).push(child.style.constraint));
        }
        i = i + 1;
    }
    let areas = split_area(area, node.style.content_direction, node.style.content_flex, &constraints);
    let ghost start = out@;
    let call = DrawCall {
        system,
        context: WidgetDrawContext { entity: Entity(entity), style: node.style, rect: area },
        child_areas: areas.clone(),
    };
    out.push(call);
    let ghost mut acc = blank;
    proof {
        lemma_calls_view_push(start, call);
        assert(call@ == call_of(tree, system, n, area, areas@));
        assert(calls_view(out@) == calls_view(start) + seq![call_of(tree, system, n, area, areas@)]
            + children_calls(tree, reg, n, areas@, 0, acc));
    }
    let mut k: usize = 0;
    while k < n_children
        invariant
            tree.wf(),
            reg.wf(),
            entity < tree.node_count(),
            n == entity as int,
            *node == tree.nodes()[n],
            n_children == tree.children_of(n).len(),
            areas@.len() == n_children,
            reg.lookup(node.tag) == Some(system),
            0 <= k <= n_children,
            layout_fits(tree, acc),
            calls_view(out@) == calls_view(start) + seq![call_of(tree, system, n, area, areas@)]
                + children_calls(tree, reg, n, areas@, k as int, acc),
        decreases n_children - k,
    {
        let c = node.children[k];
        proof {
            assert(tree.children_of(n)[k as int] == c);
            assert(entity < c < tree.node_count());
        }
        let ghost before = out@;
        draw_single(tree, reg, c, areas[k], out);
        proof {
            let g = choose|g: spec_fn(int) -> Seq<Rect>|
                layout_fits(tree, g) && calls_view(out@) == calls_view(before) + subtree_calls(
                    tree,
                    reg,
                    c as int,
                    areas@[k as int],
                    g,
                );
            let next = |m: int|
                if in_subtree(tree, c as int, m) {
                    g(m)
                } else {
                    acc(m)
                };
            assert forall|j: int, m: int|
                0 <= j < k && #[trigger] in_subtree(tree, tree.children_of(n)[j] as int, m) implies acc(
                m,
            ) == next(m) by {
                lemma_sibling_subtrees_disjoint(tree, n, j, k as int, m);
            }
            lemma_children_frame(tree, reg, n, areas@, k as int, acc, next);
            lemma_calls_frame(tree, reg, c as int, areas@[k as int], g, next);
            assert(children_calls(tree, reg, n, areas@, k + 1, next) == children_calls(
                tree,
                reg,
                n,
                areas@,
                k as int,
                next,
            ) + subtree_calls(tree, reg, c as int, areas@[k as int], next));
            assert(layout_fits(tree, next));
            acc = next;
        }
        k = k + 1;
    }
    proof {
        let layout = |m: int|
            if m == n {
                areas@
            } else {
                acc(m)
            };
        assert forall|j: int, m: int|
            0 <= j < n_children && #[trigger] in_subtree(tree, tree.children_of(n)[j] as int, m) implies acc(
            m,
        ) == layout(m) by {
            lemma_subtree_above(tree, tree.children_of(n)[j] as int, m);
        }
        lemma_children_frame(tree, reg, n, areas@, n_children as int, acc, layout);
        assert(layout_fits(tree, layout));
        assert(calls_view(out@) =~= calls_view(old(out)@) + subtree_calls(tree, reg, n, area, layout));
    }
}

/// The root of the tree, when exactly one node has no parent.
pub fn find_root<W>(tree: &WidgetTree<W>) -> (r: Option<Entity>)
    ensures
        r == match single_root(tree) {
            Some(root) => Some(Entity(root)),
            None => None,
        },
{
    let n = tree.len();
    let mut roots: Vec<usize> = Vec::new();
    let mut i: usize = 0;
    while i < n
        invariant
            n == tree.node_count(),
            0 <= i <= n,
            roots@ == roots_upto(tree, i as int),
        decreases n - i,
    {
        if tree.node(Entity(i)).parent.is_none() {
            roots.push(i);
        }
        i = i + 1;
    }
    if roots.len() == 1 {
        Some(Entity(roots[0]))
    } else {
        None
    }
}

/// Plan one frame: the draw calls for the whole tree laid out in `area`, in
/// the order in which they are to run.
///
/// `None` when the tree does not have exactly one root: the frame is then
/// skipped and whatever was shown before stays visible. Otherwise the calls
/// are those of the root's subtree; a node whose kind has no draw operation is
/// skipped together with its descendants, and the rest of the tree is drawn.
pub fn draw_hierarchy_system<W, Op>(tree: &WidgetTree<W>, reg: &WidgetRegistry<Op>, area: Rect) -> (r:
    Option<Vec<DrawCall>>)
    requires
        tree.wf(),
        reg.wf(),
    ensures
        r is None <==> single_root(tree) is None,
        forall|root: usize|
            single_root(tree) == Some(root) ==> (r matches Some(calls) && exists|
                layout: spec_fn(int) -> Seq<Rect>,
            |
                layout_fits(tree, layout) && calls_view(calls@) == subtree_calls(
                    tree,
                    reg,
                    root as int,
                    area,
                    layout,
                )),
{
    let root = match find_root(tree) {
        None => {
            return None;
        },
        Some(root) => root,
    };
    proof {
        let roots = roots_upto(tree, tree.node_count() as int);
        lemma_roots_are_nodes(tree, tree.node_count() as int);
        assert(roots.contains(roots[0]));
    }
    let mut calls: Vec<DrawCall> = Vec::new();
    proof {
        assert(calls_view(calls@) =~= Seq::<DrawCallView>::empty());
    }
    draw_single(tree, reg, root.0, area, &mut calls);
    Some(calls)
}

/// The roots among the first `k` nodes are nodes without a parent, below `k`.
pub(crate) proof fn lemma_roots_are_nodes<W>(t: &WidgetTree<W>, k: int)
    requires
        k <= usize::MAX,
    ensures
        forall|r: usize| #[trigger] roots_upto(t, k).contains(r) ==> r < k && t.parent_of(r as int) is None,
    decreases k,
{
    if k > 0 {
        lemma_roots_are_nodes(t, k - 1);
        assert forall|r: usize| #[trigger] roots_upto(t, k).contains(r) implies r < k && t.parent_of(
            r as int,
        ) is None by {
            if t.parent_of(k - 1) is None {
                let s = roots_upto(t, k - 1);
                let full = s.push((k - 1) as usize);
                if r != (k - 1) as usize {
                    let i = choose|i: int| 0 <= i < full.len() && #[trigger] full[i] == r;
                    assert(s[i] == r);
                    assert(s.contains(r));
                }
            } else {
                assert(roots_upto(t, k - 1).contains(r));
            }
        }
    }
}

} // verus!
