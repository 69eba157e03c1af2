use vstd::prelude::*;

use crate::draw::{children_calls, roots_upto, single_root, subtree_calls, DrawCallView};
use crate::geometry::Rect;
use crate::registry::WidgetRegistry;
use crate::tree::{
    in_subtree, lemma_subtree_above, lemma_subtree_through_child, lemma_subtrees_nested, WidgetTree,
};

verus! {

/// The nodes that a sequence of calls draws, in call order.
pub open spec fn drawn_entities(calls: Seq<DrawCallView>) -> Seq<int> {
    calls.map_values(|c: DrawCallView| c.context.entity.0 as int)
}

/// The nodes of the subtree of `n` in depth-first pre-order: `n` first, then
/// the subtrees of its children in their declared order.
pub open spec fn preorder<W>(t: &WidgetTree<W>, n: int) -> Seq<int>
    decreases t.node_count() - n, t.children_of(n).len() + 1,
{
    if 0 <= n < t.node_count() {
        seq![n] + preorder_children(t, n, t.children_of(n).len() as int)
    } else {
        Seq::empty()
    }
}

/// The pre-order of the subtrees of the first `k` children of `n`.
pub open spec fn preorder_children<W>(t: &WidgetTree<W>, n: int, k: int) -> Seq<int>
    decreases t.node_count() - n, k,
{
    if 0 < k <= t.children_of(n).len() && 0 <= n < t.node_count() {
        let c = t.children_of(n)[k - 1] as int;
        preorder_children(t, n, k - 1) + if n < c < t.node_count() {
            preorder(t, c)
        } else {
            Seq::empty()
        }
    } else {
        Seq::empty()
    }
}

proof fn lemma_map_concat(a: Seq<DrawCallView>, b: Seq<DrawCallView>)
    ensures
        drawn_entities(a + b) == drawn_entities(a) + drawn_entities(b),
{
    assert(drawn_entities(a + b) =~= drawn_entities(a) + drawn_entities(b));
}

/// With every kind registered, a subtree's calls draw its nodes in pre-order.
proof fn lemma_calls_follow_preorder<W, Op>(
    t: &WidgetTree<W>,
    reg: &WidgetRegistry<Op>,
    n: int,
    area: Rect,
    layout: spec_fn(int) -> Seq<Rect>,
)
    requires
        t.wf(),
        forall|m: int| 0 <= m < t.node_count() ==> (#[trigger] reg.lookup(t.nodes()[m].tag)) is Some,
    ensures
        drawn_entities(subtree_calls(t, reg, n, area, layout)) == preorder(t, n),
    decreases t.node_count() - n, t.children_of(n).len() + 1,
{
    if 0 <= n < t.node_count() {
        let system = reg.lookup(t.nodes()[n].tag)->0;
        let areas = layout(n);
        let k = t.children_of(n).len() as int;
        lemma_children_follow_preorder(t, reg, n, areas, k, layout);
        let own = seq![crate::draw::call_of(t, system, n, area, layout(n))];
        lemma_map_concat(own, children_calls(t, reg, n, areas, k, layout));
        assert(drawn_entities(own) =~= seq![n]);
    }
}

proof fn lemma_children_follow_preorder<W, Op>(
    t: &WidgetTree<W>,
    reg: &WidgetRegistry<Op>,
    n: int,
    areas: Seq<Rect>,
    k: int,
    layout: spec_fn(int) -> Seq<Rect>,
)
    requires
        t.wf(),
        forall|m: int| 0 <= m < t.node_count() ==> (#[trigger] reg.lookup(t.nodes()[m].tag)) is Some,
    ensures
        drawn_entities(children_calls(t, reg, n, areas, k, layout)) == preorder_children(t, n, k),
    decreases t.node_count() - n, k,
{
    if 0 < k <= t.children_of(n).len() && 0 <= n < t.node_count() {
        let c = t.children_of(n)[k - 1] as int;
        lemma_children_follow_preorder(t, reg, n, areas, k - 1, layout);
        if n < c < t.node_count() {
            lemma_calls_follow_preorder(t, reg, c, areas[k - 1], layout);
            lemma_map_concat(
                children_calls(t, reg, n, areas, k - 1, layout),
                subtree_calls(t, reg, c, areas[k - 1], layout),
            );
        } else {
            lemma_map_concat(children_calls(t, reg, n, areas, k - 1, layout), Seq::empty());
            assert(drawn_entities(Seq::<DrawCallView>::empty()) =~= Seq::<int>::empty());
        }
    } else {
        assert(drawn_entities(Seq::<DrawCallView>::empty()) =~= Seq::<int>::empty());
    }
}

/// A proper descendant of `n` descends from one of `n`'s children.
proof fn lemma_child_on_path<W>(t: &WidgetTree<W>, n: int, m: int) -> (j: int)
    requires
        t.wf(),
        in_subtree(t, n, m),
        m != n,
    ensures
        0 <= j < t.children_of(n).len(),
        in_subtree(t, t.children_of(n)[j] as int, m),
    decreases m,
{
    let p = t.parent_of(m)->0 as int;
    assert(0 <= m < t.node_count() && p < m);
    if p == n {
        assert(t.children_of(n).contains(m as usize));
        let j = choose|j: int| 0 <= j < t.children_of(n).len() && t.children_of(n)[j] == m as usize;
        assert(t.children_of(n)[j] as int == m);
        j
    } else {
        let j = lemma_child_on_path(t, n, p);
        let c = t.children_of(n)[j] as int;
        assert(in_subtree(t, c, p));
        if m != c {
            assert(in_subtree(t, c, m));
        }
        j
    }
}

/// The pre-order of `n`'s subtree holds exactly the nodes of that subtree,
/// each once.
proof fn lemma_preorder_nodes<W>(t: &WidgetTree<W>, n: int)
    requires
        t.wf(),
        0 <= n < t.node_count(),
    ensures
        preorder(t, n).no_duplicates(),
        forall|m: int|
            #[trigger] preorder(t, n).contains(m) <==> (0 <= m < t.node_count() && in_subtree(t, n, m)),
    decreases t.node_count() - n, t.children_of(n).len() + 1,
{
    let k = t.children_of(n).len() as int;
    lemma_preorder_children_nodes(t, n, k);
    let rest = preorder_children(t, n, k);
    assert(preorder(t, n) == seq![n] + rest);
    assert forall|m: int| #[trigger] preorder(t, n).contains(m) <==> (0 <= m < t.node_count()
        && in_subtree(t, n, m)) by {
        if preorder(t, n).contains(m) {
            let i = choose|i: int| 0 <= i < preorder(t, n).len() && preorder(t, n)[i] == m;
            if i > 0 {
                assert(rest[i - 1] == m);
                assert(rest.contains(m));
                let j = choose|j: int|
                    0 <= j < k && in_subtree(t, #[trigger] t.children_of(n)[j] as int, m);
                let c = t.children_of(n)[j] as int;
                lemma_subtree_through_child(t, n, c, m);
            } else {
                assert(m == n);
            }
        }
        if 0 <= m < t.node_count() && in_subtree(t, n, m) {
            if m != n {
                let j = lemma_child_on_path(t, n, m);
                assert(in_subtree(t, t.children_of(n)[j] as int, m));
                assert(rest.contains(m));
                let i = choose|i: int| 0 <= i < rest.len() && rest[i] == m;
                assert(preorder(t, n)[i + 1] == m);
            } else {
                assert(preorder(t, n)[0] == m);
            }
        }
    }
    assert forall|i: int, j: int|
        0 <= i < preorder(t, n).len() && 0 <= j < preorder(t, n).len() && i != j implies preorder(
        t,
        n,
    )[i] != preorder(t, n)[j] by {
        if i > 0 && j > 0 {
            assert(rest[i - 1] != rest[j - 1]);
        } else if i == 0 {
            assert(rest.contains(preorder(t, n)[j]));
        } else {
            assert(rest.contains(preorder(t, n)[i]));
        }
    }
}

proof fn lemma_preorder_children_nodes<W>(t: &WidgetTree<W>, n: int, k: int)
    requires
        t.wf(),
        0 <= n < t.node_count(),
        0 <= k <= t.children_of(n).len(),
    ensures
        preorder_children(t, n, k).no_duplicates(),
        forall|m: int| #[trigger]
            preorder_children(t, n, k).contains(m) <==> (0 <= m < t.node_count() && exists|j: int|
                0 <= j < k && in_subtree(t, #[trigger] t.children_of(n)[j] as int, m)),
        forall|m: int| #[trigger] preorder_children(t, n, k).contains(m) ==> n < m,
    decreases t.node_count() - n, k,
{
    if k > 0 {
        let c = t.children_of(n)[k - 1] as int;
        lemma_preorder_children_nodes(t, n, k - 1);
        lemma_preorder_nodes(t, c);
        let front = preorder_children(t, n, k - 1);
        let back = preorder(t, c);
        assert(preorder_children(t, n, k) == front + back);
        assert forall|m: int| #[trigger] back.contains(m) implies n < m by {
            lemma_subtree_above(t, c, m);
        }
        assert forall|m: int| #[trigger]
            preorder_children(t, n, k).contains(m) <==> (0 <= m < t.node_count() && exists|j: int|
                0 <= j < k && in_subtree(t, #[trigger] t.children_of(n)[j] as int, m)) by {
            let all = preorder_children(t, n, k);
            if all.contains(m) {
                let i = choose|i: int| 0 <= i < all.len() && all[i] == m;
                if i < front.len() {
                    assert(front.contains(m));
                } else {
                    assert(back[i - front.len()] == m);
                    assert(back.contains(m));
                    assert(in_subtree(t, t.children_of(n)[k - 1] as int, m));
                }
            }
            if 0 <= m < t.node_count() && exists|j: int|
                0 <= j < k && in_subtree(t, #[trigger] t.children_of(n)[j] as int, m) {
                let j = choose|j: int| 0 <= j < k && in_subtree(t, #[trigger] t.children_of(n)[j] as int, m);
                if j < k - 1 {
                    assert(front.contains(m));
                    let i = choose|i: int| 0 <= i < front.len() && front[i] == m;
                    assert(all[i] == m);
                } else {
                    assert(back.contains(m));
                    let i = choose|i: int| 0 <= i < back.len() && back[i] == m;
                    assert(all[front.len() + i] == m);
                }
            }
        }
        assert forall|m: int| #[trigger] preorder_children(t, n, k).contains(m) implies n < m by {
            let all = preorder_children(t, n, k);
            let i = choose|i: int| 0 <= i < all.len() && all[i] == m;
            if i < front.len() {
                assert(front.contains(m));
            } else {
                assert(back[i - front.len()] == m);
                assert(back.contains(m));
            }
        }
        assert forall|i: int, j: int|
            0 <= i < front.len() && 0 <= j < back.len() implies front[i] != back[j] by {
            let m = front[i];
            if m == back[j] {
                assert(front.contains(m));
                assert(back.contains(m));
                let j2 = choose|j2: int|
                    0 <= j2 < k - 1 && in_subtree(t, #[trigger] t.children_of(n)[j2] as int, m);
                let a = t.children_of(n)[j2] as int;
                lemma_subtrees_nested(t, a, c, m);
                assert(t.children_of(n).no_duplicates());
                assert(a != c);
                if in_subtree(t, a, c) {
                    lemma_subtree_above(t, a, t.parent_of(c)->0 as int);
                } else {
                    lemma_subtree_above(t, c, t.parent_of(a)->0 as int);
                }
            }
        }
        assert forall|i: int, j: int|
            0 <= i < (front + back).len() && 0 <= j < (front + back).len() && i != j implies (front
            + back)[i] != (front + back)[j] by {
            if i < front.len() && j >= front.len() {
                assert(front[i] != back[j - front.len()]);
            } else if j < front.len() && i >= front.len() {
                assert(front[j] != back[i - front.len()]);
            }
        }
    }
}

/// In the pre-order of a subtree, every node after the first has a parent,
/// and that parent comes earlier.
proof fn lemma_preorder_parent_first<W>(t: &WidgetTree<W>, n: int)
    requires
        t.wf(),
        0 <= n < t.node_count(),
    ensures
        forall|j: int|
            0 < j < preorder(t, n).len() ==> (#[trigger] t.parent_of(preorder(t, n)[j])) is Some
                && exists|i: int|
                0 <= i < j && #[trigger] preorder(t, n)[i] == t.parent_of(preorder(t, n)[j])->0 as int,
    decreases t.node_count() - n, t.children_of(n).len() + 1,
{
    let k = t.children_of(n).len() as int;
    let rest = preorder_children(t, n, k);
    let all = preorder(t, n);
    lemma_preorder_children_parent_first(t, n, k);
    assert(all == seq![n] + rest);
    assert forall|j: int| 0 < j < all.len() implies (#[trigger] t.parent_of(all[j])) is Some
        && exists|i: int| 0 <= i < j && #[trigger] all[i] == t.parent_of(all[j])->0 as int by {
        assert(all[j] == rest[j - 1]);
        if t.parent_of(rest[j - 1]) == Some(n as usize) {
            assert(all[0] == t.parent_of(all[j])->0 as int);
        } else {
            let i = choose|i: int|
                0 <= i < j - 1 && #[trigger] rest[i] == t.parent_of(rest[j - 1])->0 as int;
            assert(all[i + 1] == rest[i]);
        }
    }
}

proof fn lemma_preorder_children_parent_first<W>(t: &WidgetTree<W>, n: int, k: int)
    requires
        t.wf(),
        0 <= n < t.node_count(),
        0 <= k <= t.children_of(n).len(),
    ensures
        forall|p: int|
            0 <= p < preorder_children(t, n, k).len() ==> (#[trigger] t.parent_of(
                preorder_children(t, n, k)[p],
            )) is Some && (t.parent_of(preorder_children(t, n, k)[p]) == Some(n as usize) || exists|
                i: int,
            |
                0 <= i < p && #[trigger] preorder_children(t, n, k)[i] == t.parent_of(
                    preorder_children(t, n, k)[p],
                )->0 as int),
    decreases t.node_count() - n, k,
{
    if k > 0 {
        let c = t.children_of(n)[k - 1] as int;
        let front = preorder_children(t, n, k - 1);
        let back = preorder(t, c);
        let all = preorder_children(t, n, k);
        lemma_preorder_children_parent_first(t, n, k - 1);
        lemma_preorder_parent_first(t, c);
        assert(all == front + back);
        assert forall|p: int| 0 <= p < all.len() implies (#[trigger] t.parent_of(all[p])) is Some && (
        t.parent_of(all[p]) == Some(n as usize) || exists|i: int|
            0 <= i < p && #[trigger] all[i] == t.parent_of(all[p])->0 as int) by {
            if p < front.len() {
                assert(all[p] == front[p]);
                if t.parent_of(front[p]) != Some(n as usize) {
                    let i = choose|i: int|
                        0 <= i < p && #[trigger] front[i] == t.parent_of(front[p])->0 as int;
                    assert(all[i] == front[i]);
                }
            } else {
                let q = p - front.len();
                assert(all[p] == back[q]);
                if q == 0 {
                    assert(back[0] == c);
                } else {
                    let i = choose|i: int|
                        0 <= i < q && #[trigger] back[i] == t.parent_of(back[q])->0 as int;
                    assert(all[front.len() + i] == back[i]);
                }
            }
        }
    }
}

/// The pre-order of the first `k` children extends that of the first `j`,
/// and continues with the subtree of child `j`.
proof fn lemma_preorder_children_prefix<W>(t: &WidgetTree<W>, n: int, j: int, k: int)
    requires
        t.wf(),
        0 <= n < t.node_count(),
        0 <= j < k <= t.children_of(n).len(),
    ensures
        preorder_children(t, n, j).len() + preorder(t, t.children_of(n)[j] as int).len()
            <= preorder_children(t, n, k).len(),
        forall|q: int|
            0 <= q < preorder_children(t, n, j).len() ==> #[trigger] preorder_children(t, n, k)[q]
                == preorder_children(t, n, j)[q],
        forall|q: int|
            0 <= q < preorder(t, t.children_of(n)[j] as int).len() ==> #[trigger] preorder_children(
                t,
                n,
                k,
            )[preorder_children(t, n, j).len() + q] == preorder(t, t.children_of(n)[j] as int)[q],
    decreases k,
{
    let c = t.children_of(n)[j] as int;
    if k > j + 1 {
        lemma_preorder_children_prefix(t, n, j, k - 1);
        let d = t.children_of(n)[k - 1] as int;
        assert(preorder_children(t, n, k) == preorder_children(t, n, k - 1) + preorder(t, d));
    } else {
        assert(preorder_children(t, n, k) == preorder_children(t, n, j) + preorder(t, c));
    }
}

/// Earlier children's subtrees take up less of the children's pre-order.
proof fn lemma_preorder_children_grows<W>(t: &WidgetTree<W>, n: int, i: int, j: int)
    requires
        t.wf(),
        0 <= n < t.node_count(),
        0 <= i < j <= t.children_of(n).len(),
    ensures
        preorder_children(t, n, i).len() < preorder_children(t, n, j).len(),
    decreases j,
{
    let c = t.children_of(n)[j - 1] as int;
    assert(preorder_children(t, n, j) == preorder_children(t, n, j - 1) + preorder(t, c));
    assert(preorder(t, c).len() > 0);
    if i < j - 1 {
        lemma_preorder_children_grows(t, n, i, j - 1);
    }
}

/// The pre-order of a node's subtree sits as one block inside the pre-order
/// of any subtree that holds the node.
proof fn lemma_preorder_block<W>(t: &WidgetTree<W>, r: int, n: int) -> (o: int)
    requires
        t.wf(),
        0 <= r < t.node_count(),
        0 <= n < t.node_count(),
        in_subtree(t, r, n),
    ensures
        0 <= o,
        o + preorder(t, n).len() <= preorder(t, r).len(),
        forall|q: int| 0 <= q < preorder(t, n).len() ==> #[trigger] preorder(t, r)[o + q] == preorder(t, n)[q],
    decreases n,
{
    if n == r {
        0
    } else {
        let p = t.parent_of(n)->0 as int;
        let op = lemma_preorder_block(t, r, p);
        assert(t.children_of(p).contains(n as usize));
        let j = choose|j: int| 0 <= j < t.children_of(p).len() && t.children_of(p)[j] == n as usize;
        let k = t.children_of(p).len() as int;
        lemma_preorder_children_prefix(t, p, j, k);
        let front = preorder_children(t, p, j).len();
        assert(preorder(t, p) == seq![p] + preorder_children(t, p, k));
        assert forall|q: int| 0 <= q < preorder(t, n).len() implies #[trigger] preorder(t, r)[op + 1
            + front + q] == preorder(t, n)[q] by {
            let at = 1 + front + q;
            assert(preorder(t, p)[at] == preorder_children(t, p, k)[front + q]);
            assert(preorder(t, r)[op + at] == preorder(t, p)[at]);
            assert(op + at == op + 1 + front + q);
        }
        op + 1 + front
    }
}

/// Within the pre-order of a node's subtree, its children come in their
/// declared order.
proof fn lemma_preorder_sibling_order<W>(t: &WidgetTree<W>, p: int, i: int, j: int)
    requires
        t.wf(),
        0 <= p < t.node_count(),
        0 <= i < j < t.children_of(p).len(),
    ensures
        preorder(t, p)[1 + preorder_children(t, p, i).len() as int] == t.children_of(p)[i] as int,
        preorder(t, p)[1 + preorder_children(t, p, j).len() as int] == t.children_of(p)[j] as int,
        1 + preorder_children(t, p, i).len() < 1 + preorder_children(t, p, j).len() < preorder(
            t,
            p,
        ).len(),
{
    let k = t.children_of(p).len() as int;
    lemma_preorder_children_prefix(t, p, i, k);
    lemma_preorder_children_prefix(t, p, j, k);
    lemma_preorder_children_grows(t, p, i, j);
    let ci = t.children_of(p)[i] as int;
    let cj = t.children_of(p)[j] as int;
    assert(preorder(t, ci)[0] == ci);
    assert(preorder(t, cj)[0] == cj);
    assert(preorder(t, p) == seq![p] + preorder_children(t, p, k));
    let zero: int = 0;
    assert(preorder_children(t, p, k)[preorder_children(t, p, i).len() + zero] == ci);
    assert(preorder_children(t, p, k)[preorder_children(t, p, j).len() + zero] == cj);
}

/// Every node descends from some node without a parent.
proof fn lemma_reaches_root<W>(t: &WidgetTree<W>, m: int) -> (x: int)
    requires
        t.wf(),
        0 <= m < t.node_count(),
    ensures
        0 <= x < t.node_count(),
        t.parent_of(x) is None,
        in_subtree(t, x, m),
    decreases m,
{
    if t.parent_of(m) is None {
        m
    } else {
        let p = t.parent_of(m)->0 as int;
        let x = lemma_reaches_root(t, p);
        if m != x {
            assert(in_subtree(t, x, m));
        }
        x
    }
}

/// Each node without a parent among the first `k` is listed among the roots.
proof fn lemma_roots_complete<W>(t: &WidgetTree<W>, k: int, x: int)
    requires
        0 <= x < k <= usize::MAX,
        t.parent_of(x) is None,
    ensures
        roots_upto(t, k).contains(x as usize),
    decreases k,
{
    if x < k - 1 {
        lemma_roots_complete(t, k - 1, x);
        let s = roots_upto(t, k - 1);
        let i = choose|i: int| 0 <= i < s.len() && s[i] == x as usize;
        if t.parent_of(k - 1) is None {
            assert(s.push((k - 1) as usize)[i] == x as usize);
        }
    } else {
        assert(roots_upto(t, k).last() == x as usize);
    }
}

/// `a` occurs in `s` before `b` does.
pub open spec fn occurs_before(s: Seq<int>, a: int, b: int) -> bool {
    exists|x: int, y: int| 0 <= x < y < s.len() && s[x] == a && s[y] == b
}

/// Of any two children of one node, the earlier one comes first in `s`.
pub open spec fn siblings_in_order<W>(t: &WidgetTree<W>, s: Seq<int>) -> bool {
    forall|p: int, i: int, j: int|
        0 <= p < t.node_count() && 0 <= i < j < t.children_of(p).len() ==> #[trigger] occurs_before(
            s,
            t.children_of(p)[i] as int,
            t.children_of(p)[j] as int,
        )
}

/// In a tree with exactly one root, and a registry that has a draw operation
/// for every widget kind in it, a frame draws every node exactly once, in
/// depth-first pre-order: each node before its children, and children in their
/// declared order. This holds whatever areas the frame's layout passes give.
pub proof fn lemma_frame_draws_every_node_once<W, Op>(
    t: &WidgetTree<W>,
    reg: &WidgetRegistry<Op>,
    area: Rect,
    layout: spec_fn(int) -> Seq<Rect>,
)
    requires
        t.wf(),
        reg.wf(),
        single_root(t) is Some,
        forall|m: int| 0 <= m < t.node_count() ==> (#[trigger] reg.lookup(t.nodes()[m].tag)) is Some,
    ensures
        ({
            let root = single_root(t)->0 as int;
            let drawn = drawn_entities(subtree_calls(t, reg, root, area, layout));
            &&& drawn == preorder(t, root)
            &&& drawn.no_duplicates()
            &&& forall|m: int| 0 <= m < t.node_count() <==> #[trigger] drawn.contains(m)
            &&& drawn[0] == root
            &&& forall|j: int|
                0 < j < drawn.len() ==> (#[trigger] t.parent_of(drawn[j])) is Some && exists|i: int|
                    0 <= i < j && #[trigger] drawn[i] == t.parent_of(drawn[j])->0 as int
            &&& siblings_in_order(t, drawn)
        }),
{
    let root = single_root(t)->0 as int;
    let roots = roots_upto(t, t.node_count() as int);
    assert(roots.contains(roots[0]));
    crate::draw::lemma_roots_are_nodes(t, t.node_count() as int);
    lemma_calls_follow_preorder(t, reg, root, area, layout);
    lemma_preorder_nodes(t, root);
    lemma_preorder_parent_first(t, root);
    assert forall|m: int| 0 <= m < t.node_count() implies #[trigger] preorder(t, root).contains(m) by {
        let x = lemma_reaches_root(t, m);
        lemma_roots_complete(t, t.node_count() as int, x);
        let i = choose|i: int| 0 <= i < roots.len() && roots[i] == x as usize;
        assert(i == 0);
    }
    let drawn = drawn_entities(subtree_calls(t, reg, root, area, layout));
    assert(drawn == preorder(t, root));
    assert forall|p: int, i: int, j: int|
        0 <= p < t.node_count() && 0 <= i < j < t.children_of(p).len() implies #[trigger] occurs_before(
        drawn,
        t.children_of(p)[i] as int,
        t.children_of(p)[j] as int,
    ) by {
        assert(preorder(t, root).contains(p));
        let o = lemma_preorder_block(t, root, p);
        lemma_preorder_sibling_order(t, p, i, j);
        let a = o + 1 + preorder_children(t, p, i).len() as int;
        let b = o + 1 + preorder_children(t, p, j).len() as int;
        assert(preorder(t, root)[o + (a - o)] == preorder(t, p)[a - o]);
        assert(preorder(t, root)[o + (b - o)] == preorder(t, p)[b - o]);
        assert(0 <= a < b < drawn.len());
        assert(drawn[a] == t.children_of(p)[i] as int);
        assert(drawn[b] == t.children_of(p)[j] as int);
    }
}

/// Every node on the line of descent from `n` down to `m` has a draw
/// operation for its kind.
pub open spec fn chain_registered<W, Op>(
    t: &WidgetTree<W>,
    reg: &WidgetRegistry<Op>,
    n: int,
    m: int,
) -> bool
    decreases m,
{
    &&& reg.lookup(t.nodes()[m].tag) is Some
    &&& (m == n || (0 <= m < t.node_count() && t.parent_of(m) is Some && (t.parent_of(m)->0 as int)
        < m && chain_registered(t, reg, n, t.parent_of(m)->0 as int)))
}

proof fn lemma_chain_top<W, Op>(t: &WidgetTree<W>, reg: &WidgetRegistry<Op>, n: int, m: int)
    requires
        chain_registered(t, reg, n, m),
    ensures
        reg.lookup(t.nodes()[n].tag) is Some,
    decreases m,
{
    if m != n {
        lemma_chain_top(t, reg, n, t.parent_of(m)->0 as int);
    }
}

proof fn lemma_chain_through_child<W, Op>(
    t: &WidgetTree<W>,
    reg: &WidgetRegistry<Op>,
    n: int,
    c: int,
    m: int,
)
    requires
        t.wf(),
        0 <= n < c < t.node_count(),
        t.parent_of(c) == Some(n as usize),
        reg.lookup(t.nodes()[n].tag) is Some,
        chain_registered(t, reg, c, m),
    ensures
        chain_registered(t, reg, n, m),
    decreases m,
{
    if m == c {
        assert(chain_registered(t, reg, n, n));
        assert(t.parent_of(c)->0 as int == n);
    } else if m != n {
        let p = t.parent_of(m)->0 as int;
        lemma_chain_through_child(t, reg, n, c, p);
    }
}

proof fn lemma_chain_restrict<W, Op>(
    t: &WidgetTree<W>,
    reg: &WidgetRegistry<Op>,
    n: int,
    c: int,
    m: int,
)
    requires
        n < c,
        in_subtree(t, c, m),
        chain_registered(t, reg, n, m),
    ensures
        chain_registered(t, reg, c, m),
    decreases m,
{
    if m != c {
        let p = t.parent_of(m)->0 as int;
        lemma_subtree_above(t, c, m);
        lemma_chain_restrict(t, reg, n, c, p);
    }
}

/// The nodes that a subtree's calls draw: those of the subtree whose whole
/// line of descent from its top has a draw operation.
proof fn lemma_drawn_nodes<W, Op>(
    t: &WidgetTree<W>,
    reg: &WidgetRegistry<Op>,
    n: int,
    area: Rect,
    layout: spec_fn(int) -> Seq<Rect>,
)
    requires
        t.wf(),
        0 <= n < t.node_count(),
    ensures
        forall|m: int| #[trigger]
            drawn_entities(subtree_calls(t, reg, n, area, layout)).contains(m) <==> (0 <= m < t.node_count()
                && in_subtree(t, n, m) && chain_registered(t, reg, n, m)),
    decreases t.node_count() - n, t.children_of(n).len() + 1,
{
    let drawn = drawn_entities(subtree_calls(t, reg, n, area, layout));
    match reg.lookup(t.nodes()[n].tag) {
        None => {
            assert forall|m: int| #[trigger] drawn.contains(m) <==> (0 <= m < t.node_count()
                && in_subtree(t, n, m) && chain_registered(t, reg, n, m)) by {
                if chain_registered(t, reg, n, m) {
                    lemma_chain_top(t, reg, n, m);
                }
            }
        },
        Some(system) => {
            let areas = layout(n);
            let k = t.children_of(n).len() as int;
            let own = seq![crate::draw::call_of(t, system, n, area, layout(n))];
            let rest = children_calls(t, reg, n, areas, k, layout);
            lemma_map_concat(own, rest);
            assert(drawn_entities(own) =~= seq![n]);
            lemma_drawn_children(t, reg, n, areas, k, layout);
            assert forall|m: int| #[trigger] drawn.contains(m) <==> (0 <= m < t.node_count()
                && in_subtree(t, n, m) && chain_registered(t, reg, n, m)) by {
                if drawn.contains(m) {
                    let i = choose|i: int| 0 <= i < drawn.len() && drawn[i] == m;
                    if i > 0 {
                        assert(drawn_entities(rest)[i - 1] == m);
                        assert(drawn_entities(rest).contains(m));
                        let j = choose|j: int|
                            0 <= j < k && drawn_entities(
                                subtree_calls(t, reg, #[trigger] t.children_of(n)[j] as int, areas[j], layout),
                            ).contains(m);
                        let c = t.children_of(n)[j] as int;
                        lemma_drawn_nodes(t, reg, c, areas[j], layout);
                        lemma_subtree_through_child(t, n, c, m);
                        lemma_chain_through_child(t, reg, n, c, m);
                    } else {
                        assert(m == n);
                    }
                }
                if 0 <= m < t.node_count() && in_subtree(t, n, m) && chain_registered(t, reg, n, m) {
                    if m != n {
                        let j = lemma_child_on_path(t, n, m);
                        let c = t.children_of(n)[j] as int;
                        lemma_chain_restrict(t, reg, n, c, m);
                        lemma_drawn_nodes(t, reg, c, areas[j], layout);
                        assert(drawn_entities(subtree_calls(t, reg, c, areas[j], layout)).contains(m));
                        assert(drawn_entities(rest).contains(m));
                        let i = choose|i: int|
                            0 <= i < drawn_entities(rest).len() && drawn_entities(rest)[i] == m;
                        assert(drawn[i + 1] == m);
                    } else {
                        assert(drawn[0] == m);
                    }
                }
            }
        },
    }
}

proof fn lemma_drawn_children<W, Op>(
    t: &WidgetTree<W>,
    reg: &WidgetRegistry<Op>,
    n: int,
    areas: Seq<Rect>,
    k: int,
    layout: spec_fn(int) -> Seq<Rect>,
)
    requires
        t.wf(),
        0 <= n < t.node_count(),
        0 <= k <= t.children_of(n).len(),
    ensures
        forall|m: int| #[trigger]
            drawn_entities(children_calls(t, reg, n, areas, k, layout)).contains(m) <==> exists|j: int|
                0 <= j < k && drawn_entities(
                    subtree_calls(t, reg, #[trigger] t.children_of(n)[j] as int, areas[j], layout),
                ).contains(m),
    decreases k,
{
    if k == 0 {
        assert(drawn_entities(Seq::<DrawCallView>::empty()) =~= Seq::<int>::empty());
    } else {
        let c = t.children_of(n)[k - 1] as int;
        lemma_drawn_children(t, reg, n, areas, k - 1, layout);
        let front = children_calls(t, reg, n, areas, k - 1, layout);
        let back = subtree_calls(t, reg, c, areas[k - 1], layout);
        lemma_map_concat(front, back);
        let all = drawn_entities(children_calls(t, reg, n, areas, k, layout));
        assert(all == drawn_entities(front) + drawn_entities(back));
        assert forall|m: int| #[trigger] all.contains(m) <==> exists|j: int|
            0 <= j < k && drawn_entities(
                subtree_calls(t, reg, #[trigger] t.children_of(n)[j] as int, areas[j], layout),
            ).contains(m) by {
            if all.contains(m) {
                let i = choose|i: int| 0 <= i < all.len() && all[i] == m;
                if i < drawn_entities(front).len() {
                    assert(drawn_entities(front).contains(m));
                } else {
                    assert(drawn_entities(back)[i - drawn_entities(front).len()] == m);
                    assert(drawn_entities(back).contains(m));
                    assert(t.children_of(n)[k - 1] as int == c);
                }
            }
            if exists|j: int|
                0 <= j < k && drawn_entities(
                    subtree_calls(t, reg, #[trigger] t.children_of(n)[j] as int, areas[j], layout),
                ).contains(m) {
                let j = choose|j: int|
                    0 <= j < k && drawn_entities(
                        subtree_calls(t, reg, #[trigger] t.children_of(n)[j] as int, areas[j], layout),
                    ).contains(m);
                if j < k - 1 {
                    assert(drawn_entities(front).contains(m));
                    let i = choose|i: int|
                        0 <= i < drawn_entities(front).len() && drawn_entities(front)[i] == m;
                    assert(all[i] == m);
                } else {
                    assert(drawn_entities(back).contains(m));
                    let i = choose|i: int|
                        0 <= i < drawn_entities(back).len() && drawn_entities(back)[i] == m;
                    assert(all[drawn_entities(front).len() + i] == m);
                }
            }
        }
    }
}

/// A widget whose kind has no draw operation produces no output, and neither
/// does anything below it; every other node of the tree, that is every node
/// whose line of descent from the root has draw operations throughout, is
/// drawn as usual. This holds whatever areas the frame's layout passes give.
pub proof fn lemma_unregistered_kind_skips_subtree<W, Op>(
    t: &WidgetTree<W>,
    reg: &WidgetRegistry<Op>,
    area: Rect,
    layout: spec_fn(int) -> Seq<Rect>,
)
    requires
        t.wf(),
        reg.wf(),
        single_root(t) is Some,
    ensures
        ({
            let root = single_root(t)->0 as int;
            let drawn = drawn_entities(subtree_calls(t, reg, root, area, layout));
            &&& forall|m: int| #[trigger]
                drawn.contains(m) <==> (0 <= m < t.node_count() && chain_registered(t, reg, root, m))
            &&& forall|u: int, m: int|
                0 <= u < t.node_count() && reg.lookup(t.nodes()[u].tag) is None && #[trigger] in_subtree(t, u, m)
                    ==> !drawn.contains(m)
        }),
{
    let root = single_root(t)->0 as int;
    let roots = roots_upto(t, t.node_count() as int);
    assert(roots.contains(roots[0]));
    crate::draw::lemma_roots_are_nodes(t, t.node_count() as int);
    lemma_drawn_nodes(t, reg, root, area, layout);
    let drawn = drawn_entities(subtree_calls(t, reg, root, area, layout));
    assert forall|m: int| #[trigger]
        drawn.contains(m) <==> (0 <= m < t.node_count() && chain_registered(t, reg, root, m)) by {
        if 0 <= m < t.node_count() {
            let x = lemma_reaches_root(t, m);
            lemma_roots_complete(t, t.node_count() as int, x);
            let i = choose|i: int| 0 <= i < roots.len() && roots[i] == x as usize;
            assert(i == 0);
        }
    }
    assert forall|u: int, m: int|
        0 <= u < t.node_count() && reg.lookup(t.nodes()[u].tag) is None && #[trigger] in_subtree(t, u, m)
            implies !drawn.contains(m) by {
        if drawn.contains(m) {
            lemma_chain_hits(t, reg, root, u, m);
        }
    }
}

/// A registered line of descent from `n` down to `m` has a draw operation at
/// every node above `m` in it.
proof fn lemma_chain_hits<W, Op>(t: &WidgetTree<W>, reg: &WidgetRegistry<Op>, n: int, u: int, m: int)
    requires
        t.wf(),
        chain_registered(t, reg, n, m),
        in_subtree(t, u, m),
        in_subtree(t, n, m),
        0 <= n < t.node_count(),
        0 <= u < t.node_count(),
        single_root(t) == Some(n as usize),
    ensures
        reg.lookup(t.nodes()[u].tag) is Some,
    decreases m,
{
    if m == u {
    } else if m == n {
        // `u` is above the root, which has no parent
        lemma_subtree_above(t, u, m);
        let roots = roots_upto(t, t.node_count() as int);
        assert(roots.contains(roots[0]));
        crate::draw::lemma_roots_are_nodes(t, t.node_count() as int);
        assert(t.parent_of(n) is None);
    } else {
        let p = t.parent_of(m)->0 as int;
        lemma_chain_hits(t, reg, n, u, p);
    }
}

} // verus!
