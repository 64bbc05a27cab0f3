use vstd::prelude::*;
use std::ops::Range;

use crate::utils::{
    lemma_permutes_keeps, lemma_permutes_trans, lemma_permutes_widen, partition_range,
    permutes_within,
};

verus! {

/// The most bodies a leaf may hold; a node holding more is subdivided.
pub const LEAF_CAPACITY: usize = 4;

/// A node of an [`Octree`], carrying a payload of type `P`.
pub struct Node<P> {
    /// The index of this node's first child; its eight children are stored consecutively.
    pub children: Option<usize>,
    /// The node that a walk visits after this node and all of its descendants.
    ///
    /// For children 0..7 this is the next sibling; for child 7 it is the parent's next.
    /// The root node does not have a next node.
    pub next: Option<usize>,
    /// The payload of this node.
    pub data: P,
    /// The range of bodies this node contains.
    pub bodies: Range<usize>,
}

impl<P> Node<P> {
    /// A node without children.
    pub fn new(next: Option<usize>, data: P, bodies: Range<usize>) -> (node: Self)
        ensures
            node.children is None,
            node.next == next,
            node.data == data,
            node.bodies == bodies,
    {
        Node { children: None, next, data, bodies }
    }

    /// The indices of this node's eight children, if it has any.
    pub fn children_range(&self) -> (range: Option<Range<usize>>)
        requires
            self.children matches Some(c) ==> c + 8 <= usize::MAX,
        ensures
            self.children is None ==> range is None,
            self.children matches Some(c) ==> range == Some(c..(c + 8) as usize),
    {
        match self.children {
            Some(index) => Some(index..index + 8),
            None => None,
        }
    }
}

/// The number of bodies in a range.
pub open spec fn range_len(r: Range<usize>) -> int {
    r.end - r.start
}

/// Whether bit `axis` (0 for x, 1 for y, 2 for z) of the octant index `k` is set.
pub open spec fn octant_bit(k: int, axis: int) -> bool {
    if axis == 0 {
        k % 2 == 1
    } else if axis == 1 {
        (k / 2) % 2 == 1
    } else {
        (k / 4) % 2 == 1
    }
}

/// Child `k` of the node at `i`, whose first child is at `c`, has its place in the tree.
pub open spec fn child_ok<P>(nodes: Seq<Node<P>>, i: int, c: int, k: int) -> bool {
    &&& nodes[c + k].bodies.start == (if k == 0 {
        nodes[i].bodies.start
    } else {
        nodes[c + k - 1].bodies.end
    })
    &&& (k == 7 ==> nodes[c + k].bodies.end == nodes[i].bodies.end)
    &&& nodes[c + k].next == (if k < 7 {
        Some((c + k + 1) as usize)
    } else {
        nodes[i].next
    })
}

/// A numbering of the nodes of a tree in the order of a depth-first walk, with the parent of
/// each node.
pub struct Numbering {
    /// The place of each node in the walk.
    pub order: Seq<nat>,
    /// The number of nodes in the subtree of each node: the node and its descendants, which
    /// follow it in the walk.
    pub size: Seq<nat>,
    /// The node at each place of the walk.
    pub at: Seq<nat>,
    /// The parent of each node other than the root.
    pub parent: Seq<nat>,
}

/// The eight children of the node at `i` start at `c`, split its bodies in order, and the
/// first of them follows it in the walk.
pub open spec fn family_ok<P>(nodes: Seq<Node<P>>, w: Numbering, i: int, c: int) -> bool {
    &&& i < c
    &&& c + 8 <= nodes.len()
    &&& w.order[c] == w.order[i] + 1
    &&& forall|k: int| 0 <= k < 8 ==> #[trigger] child_ok(nodes, i, c, k)
    &&& forall|m: int| c <= m < c + 8 ==> #[trigger] w.parent[m] == i
}

/// The node at `i` is well formed; nodes before `done` have been considered for subdivision.
pub open spec fn node_ok<P>(nodes: Seq<Node<P>>, w: Numbering, i: int, done: int) -> bool {
    let n = nodes[i];
    &&& n.bodies.start <= n.bodies.end <= nodes[0].bodies.end
    &&& w.order[i] < nodes.len()
    &&& w.at[w.order[i] as int] == i
    &&& 1 <= w.size[i]
    &&& w.order[i] + w.size[i] <= nodes.len()
    &&& (n.next matches Some(j) ==> 0 < j < nodes.len() && w.order[j as int] == w.order[i]
        + w.size[i])
    &&& (n.next is None ==> w.order[i] + w.size[i] == nodes.len())
    &&& (n.next matches Some(j) ==> nodes[j as int].bodies.start == n.bodies.end)
    &&& (n.next is None ==> n.bodies.end == nodes[0].bodies.end)
    &&& (n.children is None ==> w.size[i] == 1)
    &&& (i >= done ==> n.children is None)
    &&& (n.children is Some ==> range_len(n.bodies) > LEAF_CAPACITY)
    &&& (i < done && range_len(n.bodies) > LEAF_CAPACITY ==> n.children is Some || nodes.len()
        + 8 > usize::MAX)
    &&& (n.children matches Some(c) ==> family_ok(nodes, w, i, c as int))
}

/// The shape of an octree whose nodes before `done` have been considered for subdivision:
/// the root comes first and covers every body, children come after their parent, the children
/// of a node split its bodies in order, `w` numbers the nodes in the order of a depth-first walk
/// that `next` follows past each subtree, and `parents` lists the subdivided nodes in increasing
/// order.
pub open spec fn tree_shape<P>(
    nodes: Seq<Node<P>>,
    parents: Seq<usize>,
    w: Numbering,
    done: int,
) -> bool {
    &&& w.order.len() == nodes.len()
    &&& w.size.len() == nodes.len()
    &&& w.at.len() == nodes.len()
    &&& w.parent.len() == nodes.len()
    &&& nodes.len() > 0 ==> nodes.len() % 8 == 1
    &&& nodes.len() <= usize::MAX
    &&& 0 <= done <= nodes.len()
    &&& nodes.len() > 0 ==> nodes[0].bodies.start == 0 && nodes[0].next is None && w.order[0] == 0
    &&& forall|i: int| 0 <= i < nodes.len() ==> #[trigger] node_ok(nodes, w, i, done)
    &&& forall|r: int|
        0 <= r < nodes.len() ==> #[trigger] w.at[r] < nodes.len() && w.order[w.at[r] as int] == r
    &&& forall|j: int|
        #![trigger w.parent[j]]
        1 <= j < nodes.len() ==> w.parent[j] < j && (nodes[w.parent[j] as int].children matches Some(
            c,
        ) && c <= j < c + 8)
    &&& forall|a: int, b: int| 0 <= a < b < parents.len() ==> parents[a] < parents[b]
    &&& forall|a: int|
        0 <= a < parents.len() ==> parents[a] < done && nodes[parents[a] as int].children is Some
    &&& forall|i: int|
        #![trigger nodes[i]]
        0 <= i < done && nodes[i].children is Some ==> parents.contains(i as usize)
}

/// The numbering after the node at `q` gains eight children, which follow it in the walk.
pub open spec fn numbering_after_split(w: Numbering, q: int) -> Numbering {
    let len = w.order.len();
    let rq = w.order[q];
    Numbering {
        order: Seq::new(
            (len + 8) as nat,
            |i: int|
                if i < len {
                    if w.order[i] > rq {
                        (w.order[i] + 8) as nat
                    } else {
                        w.order[i]
                    }
                } else {
                    (rq + 1 + (i - len)) as nat
                },
        ),
        size: Seq::new(
            (len + 8) as nat,
            |i: int|
                if i < len {
                    if w.order[i] <= rq < w.order[i] + w.size[i] {
                        (w.size[i] + 8) as nat
                    } else {
                        w.size[i]
                    }
                } else {
                    1nat
                },
        ),
        at: Seq::new(
            (len + 8) as nat,
            |r: int|
                if r <= rq {
                    w.at[r]
                } else if r <= rq + 8 {
                    (len + (r - rq - 1)) as nat
                } else {
                    w.at[r - 8]
                },
        ),
        parent: Seq::new(
            (len + 8) as nat,
            |i: int|
                if i < len {
                    w.parent[i]
                } else {
                    q as nat
                },
        ),
    }
}

/// Every body of `s` at an index in `[lo, hi)` is one on which some call `side(data, body, axis)`
/// returned `answer`.
pub open spec fn on_side<P, T, B: Fn(&P, &T, usize) -> bool>(
    side: B,
    data: P,
    s: Seq<T>,
    lo: int,
    hi: int,
    axis: usize,
    answer: bool,
) -> bool {
    forall|i: int| #![trigger s[i]] lo <= i < hi ==> call_ensures(side, (&data, &s[i], axis), answer)
}

/// The bodies of child `j` (its index among the eight is `j - c`) of a node with payload `data`
/// are on the side of each axis given by the bits of that index: bit `axis` is clear exactly when
/// `side` answered true.
pub open spec fn child_sorted<P, T, B: Fn(&P, &T, usize) -> bool>(
    side: B,
    data: P,
    s: Seq<T>,
    nodes: Seq<Node<P>>,
    c: int,
    j: int,
    axis: int,
) -> bool {
    on_side(
        side,
        data,
        s,
        nodes[j].bodies.start as int,
        nodes[j].bodies.end as int,
        axis as usize,
        !octant_bit(j - c, axis),
    )
}

/// The bodies of each child of the node at `i` lie on the sides that the child's index names.
pub open spec fn children_sorted<P, T, B: Fn(&P, &T, usize) -> bool>(
    side: B,
    s: Seq<T>,
    nodes: Seq<Node<P>>,
    i: int,
) -> bool {
    nodes[i].children matches Some(c) ==> forall|j: int, axis: int|
        c <= j < c + 8 && 0 <= axis < 3 ==> #[trigger] child_sorted(
            side,
            nodes[i].data,
            s,
            nodes,
            c as int,
            j,
            axis,
        )
}

/// The payload of each child of the node at `i` is one that `child(parent payload, index)`
/// returned.
pub open spec fn children_made<P, C: Fn(&P, usize) -> P>(child: C, nodes: Seq<Node<P>>, i: int) -> bool {
    nodes[i].children matches Some(c) ==> forall|j: int|
        #![trigger nodes[j]]
        c <= j < c + 8 ==> call_ensures(child, (&nodes[i].data, (j - c) as usize), nodes[j].data)
}

/// After a permutation within `[lo, hi)`, each `on_side` fact about a range that contains
/// `[lo, hi)`, lies apart from it, or is empty still holds.
proof fn lemma_on_side_survives<P, T, B: Fn(&P, &T, usize) -> bool>(
    side: B,
    data: P,
    s1: Seq<T>,
    s2: Seq<T>,
    lo: int,
    hi: int,
)
    requires
        permutes_within(s1, s2, lo, hi),
    ensures
        forall|plo: int, phi: int, axis: usize, answer: bool|
            #![trigger on_side(side, data, s2, plo, phi, axis, answer)]
            0 <= plo && phi <= s1.len() && ((plo <= lo && hi <= phi) || hi <= plo || phi <= lo
                || lo == hi || phi <= plo) && on_side(side, data, s1, plo, phi, axis, answer)
                ==> on_side(
                side,
                data,
                s2,
                plo,
                phi,
                axis,
                answer,
            ),
{
    assert forall|plo: int, phi: int, axis: usize, answer: bool|
        0 <= plo && phi <= s1.len() && ((plo <= lo && hi <= phi) || hi <= plo || phi <= lo || lo
            == hi || phi <= plo) && on_side(side, data, s1, plo, phi, axis, answer) implies on_side(
        side,
        data,
        s2,
        plo,
        phi,
        axis,
        answer,
    ) by {
        if plo < phi {
            let p = |x: T| call_ensures(side, (&data, &x, axis), answer);
            assert forall|i: int| plo <= i < phi implies #[trigger] p(s1[i]) by {}
            lemma_permutes_keeps(s1, s2, lo, hi, plo, phi, p);
            assert forall|i: int| plo <= i < phi implies call_ensures(
                side,
                (&data, &s2[i], axis),
                answer,
            ) by {
                assert(p(s2[i]));
            }
        }
    }
}

/// Subdividing the node at `q`, the first node not yet considered, keeps the shape of the tree
/// and considers `q`.
proof fn lemma_split_shape<P>(
    n0: Seq<Node<P>>,
    p0: Seq<usize>,
    w0: Numbering,
    n1: Seq<Node<P>>,
    p1: Seq<usize>,
    q: int,
    sp: Seq<usize>,
)
    requires
        tree_shape(n0, p0, w0, q),
        0 <= q < n0.len(),
        n0.len() + 8 <= usize::MAX,
        range_len(n0[q].bodies) > LEAF_CAPACITY,
        sp.len() == 9,
        sp[0] == n0[q].bodies.start,
        sp[8] == n0[q].bodies.end,
        forall|k: int| 0 <= k < 8 ==> sp[k] <= #[trigger] sp[k + 1],
        n1.len() == n0.len() + 8,
        forall|i: int| #![trigger n1[i]] 0 <= i < n0.len() && i != q ==> n1[i] == n0[i],
        n1[q].children == Some(n0.len() as usize),
        n1[q].next == n0[q].next,
        n1[q].bodies == n0[q].bodies,
        n1[q].data == n0[q].data,
        forall|j: int|
            #![trigger n1[j]]
            n0.len() <= j < n0.len() + 8 ==> {
                let m = j - n0.len();
                &&& n1[j].children is None
                &&& n1[j].bodies == (sp[m]..sp[m + 1])
                &&& n1[j].next == (if m < 7 {
                    Some((j + 1) as usize)
                } else {
                    n0[q].next
                })
            },
        p1 == p0.push(q as usize),
    ensures
        tree_shape(n1, p1, numbering_after_split(w0, q), q + 1),
{
    let w1 = numbering_after_split(w0, q);
    let len0 = n0.len() as int;
    assert(node_ok(n0, w0, q, q));
    assert(node_ok(n0, w0, 0, q));
    assert forall|i: int| 0 <= i < n1.len() implies #[trigger] node_ok(n1, w1, i, q + 1) by {
        if i < len0 {
            assert(node_ok(n0, w0, i, q));
            if let Some(j) = n0[i].next {
                assert(node_ok(n0, w0, j as int, q));
            }
            if i != q {
                if let Some(c) = n0[i].children {
                    assert(family_ok(n0, w0, i, c as int));
                    assert forall|k: int| 0 <= k < 8 implies #[trigger] child_ok(n1, i, c as int, k) by {
                        assert(child_ok(n0, i, c as int, k));
                        lemma_same_place(n0, n1, q, c + k);
                        if k > 0 {
                            lemma_same_place(n0, n1, q, c + k - 1);
                        }
                    }
                }
            } else {
                assert forall|k: int| 0 <= k < 8 implies #[trigger] child_ok(n1, i, len0, k) by {
                    assert(n1[len0 + k].bodies == (sp[k]..sp[k + 1]));
                    if k > 0 {
                        assert(n1[len0 + k - 1].bodies == (sp[k - 1]..sp[k]));
                    }
                }
            }
        } else {
            let m = i - len0;
            assert(n1[i].bodies == (sp[m]..sp[m + 1]));
            assert(forall|k: int| 0 <= k <= m ==> sp[0] <= #[trigger] sp[k]) by {
                assert forall|k: int| 0 <= k <= m implies sp[0] <= #[trigger] sp[k] by {
                    lemma_sorted_splits(sp, 0, k);
                }
            }
            lemma_sorted_splits(sp, m + 1, 8);
            if m == 7 {
                if let Some(j) = n0[q].next {
                    assert(node_ok(n0, w0, j as int, q));
                }
            }
        }
    }
    assert forall|i: int|
        #![trigger n1[i]]
        0 <= i < q + 1 && n1[i].children is Some implies p1.contains(i as usize) by {
        if i < q {
            assert(n1[i] == n0[i]);
            assert(p0.contains(i as usize));
            let a = choose|a: int| 0 <= a < p0.len() && p0[a] == i as usize;
            assert(p1[a] == i as usize);
        } else {
            assert(p1[p0.len() as int] == q as usize);
        }
    }
    assert forall|a: int| 0 <= a < p1.len() implies p1[a] < q + 1 && n1[p1[a] as int].children is Some by {
        if a < p0.len() {
            assert(p1[a] == p0[a]);
            assert(n1[p0[a] as int] == n0[p0[a] as int]);
        }
    }
}

/// Subdividing the node at `q` changes no node's bodies or next node.
proof fn lemma_same_place<P>(n0: Seq<Node<P>>, n1: Seq<Node<P>>, q: int, x: int)
    requires
        0 <= x < n0.len(),
        n1.len() >= n0.len(),
        forall|i: int| #![trigger n1[i]] 0 <= i < n0.len() && i != q ==> n1[i] == n0[i],
        0 <= q < n0.len() ==> n1[q].next == n0[q].next && n1[q].bodies == n0[q].bodies,
    ensures
        n1[x].bodies == n0[x].bodies,
        n1[x].next == n0[x].next,
        x != q ==> n1[x].data == n0[x].data,
{
    if x != q {
        assert(n1[x] == n0[x]);
    }
}

/// The split points of a subdivision are sorted.
proof fn lemma_sorted_splits(sp: Seq<usize>, a: int, b: int)
    requires
        sp.len() == 9,
        forall|k: int| 0 <= k < 8 ==> sp[k] <= #[trigger] sp[k + 1],
        0 <= a <= b <= 8,
    ensures
        sp[a] <= sp[b],
    decreases b - a,
{
    if a < b {
        lemma_sorted_splits(sp, a + 1, b);
        assert(sp[a] <= sp[a + 1]);
    }
}


/// A range lies inside another, or apart from it, or one of them is empty.
spec fn nested_or_apart(inner: Range<usize>, outer: Range<usize>) -> bool {
    ||| inner.start >= inner.end
    ||| outer.start >= outer.end
    ||| inner.end <= outer.start
    ||| outer.end <= inner.start
    ||| (outer.start <= inner.start && inner.end <= outer.end)
}

/// Two ranges share no index.
spec fn apart(a: Range<usize>, b: Range<usize>) -> bool {
    ||| a.start >= a.end
    ||| b.start >= b.end
    ||| a.end <= b.start
    ||| b.end <= a.start
}

/// The bodies of the node at `j` lie inside or apart from those of each child of the node at `p`.
spec fn respects<P>(nodes: Seq<Node<P>>, p: int, j: int) -> bool {
    nodes[p].children matches Some(c) ==> forall|m: int|
        c <= m < c + 8 ==> #[trigger] nested_or_apart(nodes[j].bodies, nodes[m].bodies)
}

/// What holds of a tree being built, with nodes before `done` considered for subdivision: each
/// subdivided node's children are sorted and made by the given closures, and the bodies of the
/// nodes not yet considered lie apart from one another, and inside or apart from the bodies of
/// each child of a considered node.
spec fn build_progress<P, T, B: Fn(&P, &T, usize) -> bool, C: Fn(&P, usize) -> P>(
    nodes: Seq<Node<P>>,
    s: Seq<T>,
    side: B,
    child: C,
    done: int,
) -> bool {
    &&& forall|p: int| 0 <= p < nodes.len() ==> #[trigger] children_sorted(side, s, nodes, p)
    &&& forall|p: int| 0 <= p < nodes.len() ==> #[trigger] children_made(child, nodes, p)
    &&& forall|p: int, j: int| 0 <= p < done <= j < nodes.len() ==> #[trigger] respects(nodes, p, j)
    &&& forall|j1: int, j2: int|
        done <= j1 < j2 < nodes.len() ==> #[trigger] apart(nodes[j1].bodies, nodes[j2].bodies)
}

/// Passing over the node at `q` without subdividing it keeps the tree's shape and progress.
proof fn lemma_build_skip<P, T, B: Fn(&P, &T, usize) -> bool, C: Fn(&P, usize) -> P>(
    n: Seq<Node<P>>,
    parents: Seq<usize>,
    w: Numbering,
    s: Seq<T>,
    side: B,
    child: C,
    q: int,
)
    requires
        tree_shape(n, parents, w, q),
        build_progress(n, s, side, child, q),
        0 <= q < n.len(),
        range_len(n[q].bodies) <= LEAF_CAPACITY || n.len() + 8 > usize::MAX,
    ensures
        tree_shape(n, parents, w, q + 1),
        build_progress(n, s, side, child, q + 1),
{
    assert forall|i: int| 0 <= i < n.len() implies #[trigger] node_ok(n, w, i, q + 1) by {
        assert(node_ok(n, w, i, q));
    }
    assert forall|i: int|
        #![trigger n[i]]
        0 <= i < q + 1 && n[i].children is Some implies parents.contains(i as usize) by {
        assert(node_ok(n, w, q, q));
    }
    assert forall|p: int, j: int| 0 <= p < q + 1 <= j < n.len() implies #[trigger] respects(n, p, j) by {
        if p < q {
            assert(respects(n, p, j));
        } else {
            assert(node_ok(n, w, q, q));
        }
    }
}

/// Subdividing the node at `q` keeps the tree's progress and considers `q`.
proof fn lemma_build_split<P, T, B: Fn(&P, &T, usize) -> bool, C: Fn(&P, usize) -> P>(
    n0: Seq<Node<P>>,
    p0: Seq<usize>,
    w0: Numbering,
    n1: Seq<Node<P>>,
    p1: Seq<usize>,
    w1: Numbering,
    s0: Seq<T>,
    s1: Seq<T>,
    side: B,
    child: C,
    q: int,
)
    requires
        tree_shape(n0, p0, w0, q),
        tree_shape(n1, p1, w1, q + 1),
        build_progress(n0, s0, side, child, q),
        n0[0].bodies.end == s0.len(),
        0 <= q < n0.len(),
        n0.len() + 8 <= usize::MAX,
        n1.len() == n0.len() + 8,
        forall|i: int| #![trigger n1[i]] 0 <= i < n0.len() && i != q ==> n1[i] == n0[i],
        n1[q].children == Some(n0.len() as usize),
        n1[q].next == n0[q].next,
        n1[q].data == n0[q].data,
        n1[q].bodies == n0[q].bodies,
        permutes_within(s0, s1, n0[q].bodies.start as int, n0[q].bodies.end as int),
        children_sorted(side, s1, n1, q),
        children_made(child, n1, q),
        forall|a: int, b: int|
            #![trigger n1[a], n1[b]]
            n0.len() <= a < b < n0.len() + 8 ==> n1[a].bodies.end <= n1[b].bodies.start,
        forall|a: int|
            #![trigger n1[a]]
            n0.len() <= a < n0.len() + 8 ==> n0[q].bodies.start <= n1[a].bodies.start
                <= n1[a].bodies.end <= n0[q].bodies.end,
    ensures
        build_progress(n1, s1, side, child, q + 1),
{
    let len0 = n0.len() as int;
    assert(node_ok(n0, w0, 0, q));
    let qlo = n0[q].bodies.start as int;
    let qhi = n0[q].bodies.end as int;
    assert(node_ok(n0, w0, q, q));
    assert forall|p: int| 0 <= p < n1.len() implies #[trigger] children_sorted(side, s1, n1, p) by {
        if p < len0 && p != q {
            assert(node_ok(n0, w0, p, q));
            if let Some(c) = n0[p].children {
                assert(children_sorted(side, s0, n0, p));
                assert(respects(n0, p, q));
                assert(family_ok(n0, w0, p, c as int));
                lemma_on_side_survives(side, n0[p].data, s0, s1, qlo, qhi);
                assert forall|j: int, axis: int|
                    c <= j < c + 8 && 0 <= axis < 3 implies #[trigger] child_sorted(
                    side,
                    n1[p].data,
                    s1,
                    n1,
                    c as int,
                    j,
                    axis,
                ) by {
                    lemma_same_place(n0, n1, q, j);
                    assert(node_ok(n0, w0, j, q));
                    assert(child_sorted(side, n0[p].data, s0, n0, c as int, j, axis));
                    assert(nested_or_apart(n0[q].bodies, n0[j].bodies));
                }
            }
        } else if p > q {
            assert(node_ok(n1, w1, p, q + 1));
        }
    }
    assert forall|p: int| 0 <= p < n1.len() implies #[trigger] children_made(child, n1, p) by {
        if p < len0 && p != q {
            assert(node_ok(n0, w0, p, q));
            if let Some(c) = n0[p].children {
                assert(children_made(child, n0, p));
                assert(family_ok(n0, w0, p, c as int));
                assert forall|j: int|
                    #![trigger n1[j]]
                    c <= j < c + 8 implies call_ensures(
                    child,
                    (&n1[p].data, (j - c) as usize),
                    n1[j].data,
                ) by {
                    lemma_same_place(n0, n1, q, j);
                    assert(call_ensures(child, (&n0[p].data, (j - c) as usize), n0[j].data));
                }
            }
        } else if p > q {
            assert(node_ok(n1, w1, p, q + 1));
        }
    }
    assert forall|p: int, j: int| 0 <= p < q + 1 <= j < n1.len() implies #[trigger] respects(
        n1,
        p,
        j,
    ) by {
        if p < q {
            assert(node_ok(n0, w0, p, q));
            assert(n1[p] == n0[p]);
            if let Some(c) = n0[p].children {
                assert(family_ok(n0, w0, p, c as int));
                assert(respects(n0, p, q));
                if j < len0 {
                    assert(respects(n0, p, j));
                    assert(n1[j] == n0[j]);
                }
                assert forall|m: int| c <= m < c + 8 implies #[trigger] nested_or_apart(
                    n1[j].bodies,
                    n1[m].bodies,
                ) by {
                    lemma_same_place(n0, n1, q, m);
                    assert(nested_or_apart(n0[q].bodies, n0[m].bodies));
                    if j < len0 {
                        assert(nested_or_apart(n0[j].bodies, n0[m].bodies));
                    } else {
                        assert(n0[q].bodies.start <= n1[j].bodies.start <= n1[j].bodies.end <= n0[q].bodies.end);
                    }
                }
                assert(respects(n1, p, j));
            }
        } else {
            assert(p == q);
            assert(n1[p].children == Some(len0 as usize));
            assert forall|m: int| len0 <= m < len0 + 8 implies #[trigger] nested_or_apart(
                n1[j].bodies,
                n1[m].bodies,
            ) by {
                if j < len0 {
                    assert(n1[j] == n0[j]);
                    assert(apart(n0[q].bodies, n0[j].bodies));
                } else if j < m {
                    assert(n1[j].bodies.end <= n1[m].bodies.start);
                } else if m < j {
                    assert(n1[m].bodies.end <= n1[j].bodies.start);
                }
            }
            assert(respects(n1, p, j));
        }
    }
    assert forall|j1: int, j2: int| q + 1 <= j1 < j2 < n1.len() implies #[trigger] apart(
        n1[j1].bodies,
        n1[j2].bodies,
    ) by {
        if j2 < len0 {
            assert(n1[j1] == n0[j1]);
            assert(n1[j2] == n0[j2]);
            assert(apart(n0[j1].bodies, n0[j2].bodies));
        } else if j1 < len0 {
            assert(n1[j1] == n0[j1]);
            assert(apart(n0[q].bodies, n0[j1].bodies));
        } else {
            assert(n1[j1].bodies.end <= n1[j2].bodies.start);
        }
    }
}

/// An octree that implements the [Barnes-Hut algorithm](https://en.wikipedia.org/wiki/Barnes%E2%80%93Hut_simulation)'s
/// partition of space, with a payload of type `P` on each node.
///
/// Octants are indexed 0..8 based on their relative position. The bits of this index are based on
/// which side the octants are on for each coordinate in the order ZYX: bit `axis` of a child's
/// index is clear for the bodies on which the `side` test of [`Octree::build`] holds.
pub struct Octree<P> {
    /// All nodes within the octree.
    ///
    /// Nodes are ordered such that parents are before children, and the root node is always at
    /// index 0.
    nodes: Vec<Node<P>>,
    /// The indices of the nodes that are parents: all the nodes which are not leaves.
    parents: Vec<usize>,
    /// The numbering of the nodes in the order of a depth-first walk of the tree.
    numbering: Ghost<Numbering>,
}

impl<P> View for Octree<P> {
    type V = Seq<Node<P>>;

    closed spec fn view(&self) -> Seq<Node<P>> {
        self.nodes@
    }
}

impl<P> Octree<P> {
    /// The indices of the subdivided nodes, in increasing order.
    pub closed spec fn parent_indices(&self) -> Seq<usize> {
        self.parents@
    }

    /// The numbering of the nodes in the order of a depth-first walk of the tree.
    pub closed spec fn numbering(&self) -> Numbering {
        self.numbering@
    }

    /// The octree is well formed.
    pub open spec fn wf(&self) -> bool {
        tree_shape(self@, self.parent_indices(), self.numbering(), self@.len() as int)
    }

    /// Index of the root node.
    pub const ROOT_INDEX: usize = 0;

    /// An empty octree.
    pub fn new() -> (tree: Self)
        ensures
            tree@.len() == 0,
            tree.parent_indices().len() == 0,
            tree.wf(),
    {
        Octree { nodes: Vec::new(), parents: Vec::new(), numbering: Ghost(Numbering { order: Seq::empty(), size: Seq::empty(), at: Seq::empty(), parent: Seq::empty() }) }
    }

    /// Clears all nodes from the octree.
    pub fn clear(&mut self)
        ensures
            final(self)@.len() == 0,
            final(self).parent_indices().len() == 0,
            final(self).wf(),
    {
        self.nodes.clear();
        self.parents.clear();
        self.numbering = Ghost(Numbering { order: Seq::empty(), size: Seq::empty(), at: Seq::empty(), parent: Seq::empty() });
    }

    /// True if there are no nodes in the octree.
    pub fn is_empty(&self) -> (empty: bool)
        ensures
            empty == (self@.len() == 0),
    {
        self.nodes.len() == 0
    }

    /// The number of nodes in the octree.
    pub fn len(&self) -> (len: usize)
        ensures
            len == self@.len(),
    {
        self.nodes.len()
    }

    /// The node at `index`.
    pub fn node(&self, index: usize) -> (node: &Node<P>)
        requires
            index < self@.len(),
        ensures
            *node == self@[index as int],
    {
        &self.nodes[index]
    }

    /// The indices of the subdivided nodes, in increasing order; a node's children come after
    /// it, so walking this list backwards visits every child before its parent.
    pub fn parents(&self) -> (parents: &Vec<usize>)
        ensures
            parents@ == self.parent_indices(),
    {
        &self.parents
    }

    /// Replaces the payload of the node at `index`, leaving the tree's shape unchanged.
    pub fn set_data(&mut self, index: usize, data: P)
        requires
            index < old(self)@.len(),
        ensures
            final(self)@.len() == old(self)@.len(),
            final(self)@[index as int].data == data,
            final(self)@[index as int].children == old(self)@[index as int].children,
            final(self)@[index as int].next == old(self)@[index as int].next,
            final(self)@[index as int].bodies == old(self)@[index as int].bodies,
            forall|i: int|
                #![trigger final(self)@[i]]
                0 <= i < old(self)@.len() && i != index ==> final(self)@[i] == old(self)@[i],
            final(self).parent_indices() == old(self).parent_indices(),
            final(self).numbering() == old(self).numbering(),
            old(self).wf() ==> final(self).wf(),
    {
        let ghost n0 = self.nodes@;
        self.nodes[index].data = data;
        proof {
            let n1 = self.nodes@;
            if tree_shape(n0, self.parents@, self.numbering@, n0.len() as int) {
                let d = n0.len() as int;
                assert forall|i: int| 0 <= i < n1.len() implies #[trigger] node_ok(
                    n1,
                    self.numbering@,
                    i,
                    d,
                ) by {
                    assert(node_ok(n0, self.numbering@, i, d));
                    lemma_same_place(n0, n1, index as int, 0);
                    lemma_same_place(n0, n1, index as int, i);
                    if let Some(c) = n0[i].children {
                        assert(family_ok(n0, self.numbering@, i, c as int));
                        assert forall|k: int| 0 <= k < 8 implies #[trigger] child_ok(
                            n1,
                            i,
                            c as int,
                            k,
                        ) by {
                            assert(child_ok(n0, i, c as int, k));
                            lemma_same_place(n0, n1, index as int, c + k);
                            if k > 0 {
                                lemma_same_place(n0, n1, index as int, c + k - 1);
                            }
                        }
                    }
                }
                assert forall|i: int|
                    #![trigger n1[i]]
                    0 <= i < d && n1[i].children is Some implies self.parents@.contains(
                    i as usize,
                ) by {
                    assert(n0[i].children is Some);
                }
                assert forall|a: int| 0 <= a < self.parents@.len() implies n1[self.parents@[a] as int].children is Some by {
                    assert(n0[self.parents@[a] as int].children is Some);
                }
            }
        }
    }

    /// The node a walk of the tree visits after the node at `index`: its first child when
    /// `descend` is true and it has children, and otherwise the node after it and all of its
    /// descendants (`None` once the walk is over).
    pub fn advance(&self, index: usize, descend: bool) -> (next: Option<usize>)
        requires
            self.wf(),
            index < self@.len(),
        ensures
            next == (if descend && self@[index as int].children is Some {
                self@[index as int].children
            } else {
                self@[index as int].next
            }),
            ({
                let w = self.numbering();
                let r = w.order[index as int];
                let skip: int = if descend { 1 } else { w.size[index as int] as int };
                next == (if r + skip < self@.len() {
                    Some(w.at[r + skip] as usize)
                } else {
                    None::<usize>
                })
            }),
    {
        proof {
            lemma_walk_steps(self, index as int);
            let w = self.numbering();
            let i = index as int;
            if let Some(c) = self@[i].children {
                assert(node_ok(self@, w, c as int, self@.len() as int));
                assert(w.at[w.order[c as int] as int] == c);
            }
            if let Some(j) = self@[i].next {
                assert(node_ok(self@, w, j as int, self@.len() as int));
                assert(w.at[w.order[j as int] as int] == j);
            }
        }
        let node = &self.nodes[index];
        if descend && node.children.is_some() {
            node.children
        } else {
            node.next
        }
    }

    /// Clears and rebuilds this octree from the bodies passed in.
    ///
    /// This method rearranges `bodies` such that each of the octree's nodes is able to index a
    /// slice of bodies belonging to it. The root gets the payload `root`; a node with more than
    /// [`LEAF_CAPACITY`] bodies is split by the tests `side(payload, body, axis)` for the axes z,
    /// y and x, in that order, and its child `k` gets the payload `child(payload, k)`.
    pub fn build<T, B: Fn(&P, &T, usize) -> bool, C: Fn(&P, usize) -> P>(
        &mut self,
        bodies: &mut [T],
        root: P,
        side: B,
        child: C,
    )
        requires
            forall|p: &P, t: &T, a: usize| #[trigger] side.requires((p, t, a)),
            forall|p: &P, k: usize| #[trigger] child.requires((p, k)),
        ensures
            final(self).wf(),
            final(self)@.len() >= 1,
            final(self)@[0].data == root,
            final(self)@[0].bodies == (0..old(bodies)@.len() as usize),
            final(bodies)@.len() == old(bodies)@.len(),
            final(bodies)@.to_multiset() == old(bodies)@.to_multiset(),
            forall|p: int|
                0 <= p < final(self)@.len() ==> #[trigger] children_sorted(
                    side,
                    final(bodies)@,
                    final(self)@,
                    p,
                ),
            forall|p: int|
                0 <= p < final(self)@.len() ==> #[trigger] children_made(child, final(self)@, p),
    {
        let ghost initial = bodies@;
        self.clear();
        self.nodes.reserve(bodies.len() / LEAF_CAPACITY);
        self.nodes.push(Node::new(None, root, 0..bodies.len()));
        self.numbering = Ghost(
            Numbering {
                order: Seq::empty().push(0nat),
                size: Seq::empty().push(1nat),
                at: Seq::empty().push(0nat),
                parent: Seq::empty().push(0nat),
            },
        );
        proof {
            assert(initial.subrange(0, initial.len() as int) =~= bodies@.subrange(0, initial.len() as int));
            assert(node_ok(self.nodes@, self.numbering@, 0, 0));
            assert(self.nodes@.len() == 1);
        }
        let mut node: usize = 0;
        while node < self.nodes.len()
            invariant
                tree_shape(self@, self.parent_indices(), self.numbering(), node as int),
                build_progress(self@, bodies@, side, child, node as int),
                self@.len() >= 1,
                self@[0].data == root,
                self@[0].bodies.start == 0,
                self@[0].bodies.end == initial.len(),
                permutes_within(initial, bodies@, 0, initial.len() as int),
                forall|p: &P, t: &T, a: usize| #[trigger] side.requires((p, t, a)),
                forall|p: &P, k: usize| #[trigger] child.requires((p, k)),
            decreases usize::MAX - node,
        {
            let start = self.nodes[node].bodies.start;
            let end = self.nodes[node].bodies.end;
            proof {
                assert(node_ok(self@, self.numbering(), node as int, node as int));
            }
            if end - start > LEAF_CAPACITY && self.nodes.len() <= usize::MAX - 8 {
                let ghost n0 = self@;
                let ghost p0 = self.parent_indices();
                let ghost w0 = self.numbering();
                let ghost s0 = bodies@;
                self.subdivide(node, bodies, &side, &child);
                proof {
                    lemma_build_split(
                        n0,
                        p0,
                        w0,
                        self@,
                        self.parent_indices(),
                        self.numbering(),
                        s0,
                        bodies@,
                        side,
                        child,
                        node as int,
                    );
                    lemma_permutes_widen(s0, bodies@, start as int, end as int, 0, initial.len() as int);
                    lemma_permutes_trans(initial, s0, bodies@, 0, initial.len() as int);
                    assert(self@[0] == n0[0] || node == 0);
                }
            } else {
                proof {
                    lemma_build_skip(
                        self@,
                        self.parent_indices(),
                        self.numbering(),
                        bodies@,
                        side,
                        child,
                        node as int,
                    );
                }
            }
            node = node + 1;
        }
        proof {
            assert(initial.subrange(0, initial.len() as int) =~= initial);
            assert(bodies@.subrange(0, initial.len() as int) =~= bodies@);
        }
    }

    /// Splits the bodies of the node at `node` into eight children, appended at the end.
    #[verifier::loop_isolation(false)]
    fn subdivide<T, B: Fn(&P, &T, usize) -> bool, C: Fn(&P, usize) -> P>(
        &mut self,
        node: usize,
        bodies: &mut [T],
        side: &B,
        child: &C,
    )
        requires
            tree_shape(old(self)@, old(self).parent_indices(), old(self).numbering(), node as int),
            node < old(self)@.len(),
            old(self)@.len() + 8 <= usize::MAX,
            range_len(old(self)@[node as int].bodies) > LEAF_CAPACITY,
            old(self)@[0].bodies.end == old(bodies)@.len(),
            forall|p: &P, t: &T, a: usize| #[trigger] side.requires((p, t, a)),
            forall|p: &P, k: usize| #[trigger] child.requires((p, k)),
        ensures
            final(self)@.len() == old(self)@.len() + 8,
            forall|i: int|
                #![trigger final(self)@[i]]
                0 <= i < old(self)@.len() && i != node ==> final(self)@[i] == old(self)@[i],
            final(self)@[node as int].children == Some(old(self)@.len() as usize),
            final(self)@[node as int].next == old(self)@[node as int].next,
            final(self)@[node as int].data == old(self)@[node as int].data,
            final(self)@[node as int].bodies == old(self)@[node as int].bodies,
            final(self).parent_indices() == old(self).parent_indices().push(node),
            final(self).numbering() == numbering_after_split(old(self).numbering(), node as int),
            tree_shape(final(self)@, final(self).parent_indices(), final(self).numbering(), node + 1),
            permutes_within(
                old(bodies)@,
                final(bodies)@,
                old(self)@[node as int].bodies.start as int,
                old(self)@[node as int].bodies.end as int,
            ),
            children_sorted(*side, final(bodies)@, final(self)@, node as int),
            children_made(*child, final(self)@, node as int),
            forall|a: int, b: int|
                #![trigger final(self)@[a], final(self)@[b]]
                old(self)@.len() <= a < b < old(self)@.len() + 8 ==> final(self)@[a].bodies.end
                    <= final(self)@[b].bodies.start,
            forall|a: int|
                #![trigger final(self)@[a]]
                old(self)@.len() <= a < old(self)@.len() + 8 ==> old(self)@[node as int].bodies.start
                    <= final(self)@[a].bodies.start <= final(self)@[a].bodies.end
                    <= old(self)@[node as int].bodies.end,
    {
        let ghost old_nodes = self.nodes@;
        let ghost s0 = bodies@;
        let start = self.nodes[node].bodies.start;
        let end = self.nodes[node].bodies.end;
        assert(node_ok(old_nodes, self.numbering@, node as int, node as int));
        assert(node_ok(old_nodes, self.numbering@, 0, node as int));
        let mut splits: [usize; 9] = [start, 0, 0, 0, 0, 0, 0, 0, end];
        let data = &self.nodes[node].data;
        let by_x = |b: &T| -> (r: bool)
            requires
                side.requires((data, b, 0usize)),
            ensures
                call_ensures(*side, (data, b, 0usize), r),
            { side(data, b, 0usize) };
        let by_y = |b: &T| -> (r: bool)
            requires
                side.requires((data, b, 1usize)),
            ensures
                call_ensures(*side, (data, b, 1usize), r),
            { side(data, b, 1usize) };
        let by_z = |b: &T| -> (r: bool)
            requires
                side.requires((data, b, 2usize)),
            ensures
                call_ensures(*side, (data, b, 2usize), r),
            { side(data, b, 2usize) };

        splits[4] = partition_range(bodies, splits[0], splits[8], by_z);
        let ghost s1 = bodies@;
        splits[2] = partition_range(bodies, splits[0], splits[4], by_y);
        let ghost s2 = bodies@;
        splits[6] = partition_range(bodies, splits[4], splits[8], by_y);
        let ghost s3 = bodies@;
        splits[1] = partition_range(bodies, splits[0], splits[2], by_x);
        let ghost s4 = bodies@;
        splits[3] = partition_range(bodies, splits[2], splits[4], by_x);
        let ghost s5 = bodies@;
        splits[5] = partition_range(bodies, splits[4], splits[6], by_x);
        let ghost s6 = bodies@;
        splits[7] = partition_range(bodies, splits[6], splits[8], by_x);
        let ghost s7 = bodies@;
        proof {
            let d = *data;
            let sp = splits@;
            assert(on_side(*side, d, s1, sp[0] as int, sp[4] as int, 2, true));
            assert(on_side(*side, d, s1, sp[4] as int, sp[8] as int, 2, false));
            assert(on_side(*side, d, s2, sp[0] as int, sp[2] as int, 1, true));
            assert(on_side(*side, d, s2, sp[2] as int, sp[4] as int, 1, false));
            assert(on_side(*side, d, s3, sp[4] as int, sp[6] as int, 1, true));
            assert(on_side(*side, d, s3, sp[6] as int, sp[8] as int, 1, false));
            assert(on_side(*side, d, s4, sp[0] as int, sp[1] as int, 0, true));
            assert(on_side(*side, d, s4, sp[1] as int, sp[2] as int, 0, false));
            assert(on_side(*side, d, s5, sp[2] as int, sp[3] as int, 0, true));
            assert(on_side(*side, d, s5, sp[3] as int, sp[4] as int, 0, false));
            assert(on_side(*side, d, s6, sp[4] as int, sp[5] as int, 0, true));
            assert(on_side(*side, d, s6, sp[5] as int, sp[6] as int, 0, false));
            assert(on_side(*side, d, s7, sp[6] as int, sp[7] as int, 0, true));
            assert(on_side(*side, d, s7, sp[7] as int, sp[8] as int, 0, false));
            lemma_on_side_survives(*side, d, s1, s2, sp[0] as int, sp[4] as int);
            lemma_on_side_survives(*side, d, s2, s3, sp[4] as int, sp[8] as int);
            lemma_on_side_survives(*side, d, s3, s4, sp[0] as int, sp[2] as int);
            lemma_on_side_survives(*side, d, s4, s5, sp[2] as int, sp[4] as int);
            lemma_on_side_survives(*side, d, s5, s6, sp[4] as int, sp[6] as int);
            lemma_on_side_survives(*side, d, s6, s7, sp[6] as int, sp[8] as int);
            lemma_permutes_widen(s1, s2, sp[0] as int, sp[4] as int, start as int, end as int);
            lemma_permutes_widen(s2, s3, sp[4] as int, sp[8] as int, start as int, end as int);
            lemma_permutes_widen(s3, s4, sp[0] as int, sp[2] as int, start as int, end as int);
            lemma_permutes_widen(s4, s5, sp[2] as int, sp[4] as int, start as int, end as int);
            lemma_permutes_widen(s5, s6, sp[4] as int, sp[6] as int, start as int, end as int);
            lemma_permutes_widen(s6, s7, sp[6] as int, sp[8] as int, start as int, end as int);
            lemma_permutes_trans(s0, s1, s2, start as int, end as int);
            lemma_permutes_trans(s0, s2, s3, start as int, end as int);
            lemma_permutes_trans(s0, s3, s4, start as int, end as int);
            lemma_permutes_trans(s0, s4, s5, start as int, end as int);
            lemma_permutes_trans(s0, s5, s6, start as int, end as int);
            lemma_permutes_trans(s0, s6, s7, start as int, end as int);
            assert forall|k: int, axis: int| 0 <= k < 8 && 0 <= axis < 3 implies on_side(
                *side,
                d,
                s7,
                sp[k] as int,
                sp[k + 1] as int,
                axis as usize,
                !octant_bit(k, axis),
            ) by {
                if axis == 2 {
                    if k < 4 {
                        assert(on_side(*side, d, s7, sp[0] as int, sp[4] as int, 2, true));
                    } else {
                        assert(on_side(*side, d, s7, sp[4] as int, sp[8] as int, 2, false));
                    }
                } else if axis == 1 {
                    if k < 2 {
                        assert(on_side(*side, d, s7, sp[0] as int, sp[2] as int, 1, true));
                    } else if k < 4 {
                        assert(on_side(*side, d, s7, sp[2] as int, sp[4] as int, 1, false));
                    } else if k < 6 {
                        assert(on_side(*side, d, s7, sp[4] as int, sp[6] as int, 1, true));
                    } else {
                        assert(on_side(*side, d, s7, sp[6] as int, sp[8] as int, 1, false));
                    }
                } else {
                    if k % 2 == 0 {
                        assert(on_side(*side, d, s7, sp[k] as int, sp[k + 1] as int, 0, true));
                    } else {
                        assert(on_side(*side, d, s7, sp[k] as int, sp[k + 1] as int, 0, false));
                    }
                }
            }
        }

        let ghost order0 = self.numbering@;
        let ghost parents0 = self.parents@;
        let children = self.nodes.len();
        let parent_next = self.nodes[node].next;
        let mut datas: Vec<P> = Vec::new();
        let mut k: usize = 0;
        while k < 8
            invariant
                k <= 8,
                datas@.len() == k,
                self.nodes@ == old_nodes,
                forall|p: &P, k: usize| #[trigger] child.requires((p, k)),
                forall|j: int|
                    0 <= j < k ==> call_ensures(
                        *child,
                        (&old_nodes[node as int].data, j as usize),
                        #[trigger] datas@[j],
                    ),
            decreases 8 - k,
        {
            let d = child(&self.nodes[node].data, k);
            datas.push(d);
            k = k + 1;
        }

        self.parents.push(node);
        self.nodes[node].children = Some(children);
        let ghost nodes1 = self.nodes@;
        let mut k: usize = 0;
        while k < 8
            invariant
                k <= 8,
                children == old_nodes.len(),
                children + 8 <= usize::MAX,
                self.parents@ == parents0.push(node),
                datas@.len() == 8 - k,
                self.nodes@.len() == children + k,
                forall|i: int| 0 <= i < children ==> #[trigger] self.nodes@[i] == nodes1[i],
                forall|j: int|
                    0 <= j < 8 - k ==> call_ensures(
                        *child,
                        (&old_nodes[node as int].data, (j + k) as usize),
                        #[trigger] datas@[j],
                    ),
                forall|j: int|
                    #![trigger self.nodes@[j]]
                    children <= j < children + k ==> {
                        let m = j - children;
                        &&& self.nodes@[j].children is None
                        &&& self.nodes@[j].bodies == (splits@[m]..splits@[m + 1])
                        &&& self.nodes@[j].next == (if m < 7 {
                            Some((j + 1) as usize)
                        } else {
                            parent_next
                        })
                        &&& call_ensures(
                            *child,
                            (&old_nodes[node as int].data, m as usize),
                            self.nodes@[j].data,
                        )
                    },
            decreases 8 - k,
        {
            let next = if k < 7 {
                Some(children + k + 1)
            } else {
                parent_next
            };
            let d = datas.remove(0);
            self.nodes.push(Node::new(next, d, splits[k]..splits[k + 1]));
            k = k + 1;
        }
        self.numbering = Ghost(numbering_after_split(order0, node as int));
        proof {
            lemma_split_shape(old_nodes, parents0, order0, self.nodes@, self.parents@, node as int, splits@);
            let len0 = old_nodes.len() as int;
            assert forall|a: int, b: int|
                #![trigger self.nodes@[a], self.nodes@[b]]
                len0 <= a < b < len0 + 8 implies self.nodes@[a].bodies.end
                    <= self.nodes@[b].bodies.start by {
                lemma_sorted_splits(splits@, a - len0 + 1, b - len0);
            }
            assert forall|a: int|
                #![trigger self.nodes@[a]]
                len0 <= a < len0 + 8 implies start <= self.nodes@[a].bodies.start
                    <= self.nodes@[a].bodies.end <= end by {
                lemma_sorted_splits(splits@, 0, a - len0);
                lemma_sorted_splits(splits@, a - len0 + 1, 8);
                lemma_sorted_splits(splits@, a - len0, a - len0 + 1);
            }
        }
    }
}


/// The node at `j` is one of the eight children of the node at `p`.
pub open spec fn is_child_of<P>(nodes: Seq<Node<P>>, p: int, j: int) -> bool {
    nodes[p].children matches Some(c) && c <= j < c + 8
}

/// In a well-formed, non-empty octree: a node has children exactly when it holds more than
/// `LEAF_CAPACITY` bodies (unless the tree is within eight nodes of `usize::MAX`, the most a
/// vector can count); the number of nodes is one more than a multiple of eight (each subdivision
/// adds eight); the root is nobody's child; every other node is one of the
/// eight children of exactly one parent, which comes before it (`numbering().parent` names it);
/// and `parents` lists each
/// subdivided node exactly once, in increasing order, and nothing else.
pub proof fn lemma_tree_links<P>(tree: &Octree<P>)
    requires
        tree.wf(),
        tree@.len() > 0,
    ensures
        tree@.len() % 8 == 1,
        forall|p: int|
            0 <= p < tree@.len() ==> (#[trigger] tree@[p].children matches Some(c) ==> 0 < c),
        forall|j: int|
            1 <= j < tree@.len() ==> #[trigger] tree.numbering().parent[j] < j && is_child_of(
                tree@,
                tree.numbering().parent[j] as int,
                j,
            ),
        forall|j: int, p1: int, p2: int|
            0 <= p1 < tree@.len() && 0 <= p2 < tree@.len() && #[trigger] is_child_of(tree@, p1, j)
                && #[trigger] is_child_of(tree@, p2, j) ==> p1 == p2,
        forall|p: int|
            0 <= p < tree@.len() ==> (#[trigger] tree@[p].children is Some ==> range_len(
                tree@[p].bodies,
            ) > LEAF_CAPACITY),
        forall|p: int|
            0 <= p < tree@.len() && range_len(#[trigger] tree@[p].bodies) > LEAF_CAPACITY
                ==> tree@[p].children is Some || tree@.len() + 8 > usize::MAX,
        forall|a: int, b: int|
            0 <= a < b < tree.parent_indices().len() ==> tree.parent_indices()[a]
                < tree.parent_indices()[b],
        forall|p: int|
            0 <= p < tree@.len() ==> (#[trigger] tree@[p].children is Some <==> tree.parent_indices().contains(
                p as usize,
            )),
{
    let n = tree@;
    let w = tree.numbering();
    let len = n.len() as int;
    assert forall|p: int| 0 <= p < len implies (#[trigger] n[p].children matches Some(c) ==> 0 < c) by {
        assert(node_ok(n, w, p, len));
    }
    assert forall|p: int| 0 <= p < len implies (#[trigger] n[p].children is Some ==> range_len(
        n[p].bodies,
    ) > LEAF_CAPACITY) by {
        assert(node_ok(n, w, p, len));
    }
    assert forall|p: int|
        0 <= p < len && range_len(#[trigger] n[p].bodies) > LEAF_CAPACITY implies n[p].children is Some
            || len + 8 > usize::MAX by {
        assert(node_ok(n, w, p, len));
    }
    assert forall|j: int, p1: int, p2: int|
        0 <= p1 < len && 0 <= p2 < len && #[trigger] is_child_of(n, p1, j) && #[trigger] is_child_of(
            n,
            p2,
            j,
        ) implies p1 == p2 by {
        assert(node_ok(n, w, p1, len));
        assert(node_ok(n, w, p2, len));
        let c1 = n[p1].children->0 as int;
        let c2 = n[p2].children->0 as int;
        assert(family_ok(n, w, p1, c1));
        assert(family_ok(n, w, p2, c2));
        assert(w.parent[j] == p1);
        assert(w.parent[j] == p2);
    }
    assert forall|p: int| 0 <= p < len implies (#[trigger] n[p].children is Some
        <==> tree.parent_indices().contains(p as usize)) by {
        if tree.parent_indices().contains(p as usize) {
            let a = choose|a: int|
                0 <= a < tree.parent_indices().len() && tree.parent_indices()[a] == p as usize;
            assert(n[tree.parent_indices()[a] as int].children is Some);
        }
    }
}

/// In a well-formed octree, `numbering` numbers the nodes in the order of a depth-first walk
/// that starts at the root: each node's first child comes right after it, and its next node
/// comes right after its subtree, the `size` nodes that start with it; a leaf's subtree is the
/// leaf alone. So a walk that always descends visits every node exactly once, in this order, and
/// a step to the next node skips exactly the node's subtree. A node's first child starts with
/// its bodies, and its next node starts where its bodies end (with none when they end with the
/// root's), so the bodies of the nodes at which a walk stops follow one another, each once.
pub proof fn lemma_walk_steps<P>(tree: &Octree<P>, i: int)
    requires
        tree.wf(),
        0 <= i < tree@.len(),
    ensures
        tree.numbering().order[0] == 0,
        tree.numbering().order[i] < tree@.len(),
        tree.numbering().at[tree.numbering().order[i] as int] == i,
        tree@[i].children matches Some(c) ==> c < tree@.len() && tree.numbering().order[c as int]
            == tree.numbering().order[i] + 1,
        tree@[i].children is None ==> tree.numbering().size[i] == 1,
        tree@[i].next matches Some(j) ==> j < tree@.len() && tree.numbering().order[j as int]
            == tree.numbering().order[i] + tree.numbering().size[i],
        tree@[i].next is None ==> tree.numbering().order[i] + tree.numbering().size[i]
            == tree@.len(),
        tree@[i].children matches Some(c) ==> tree@[c as int].bodies.start
            == tree@[i].bodies.start,
        tree@[i].next matches Some(j) ==> tree@[j as int].bodies.start == tree@[i].bodies.end,
        tree@[i].next is None ==> tree@[i].bodies.end == tree@[0].bodies.end,
        forall|r: int|
            0 <= r < tree@.len() ==> #[trigger] tree.numbering().at[r] < tree@.len()
                && tree.numbering().order[tree.numbering().at[r] as int] == r,
{
    let w = tree.numbering();
    assert(node_ok(tree@, w, i, tree@.len() as int));
    if let Some(c) = tree@[i].children {
        assert(family_ok(tree@, w, i, c as int));
        assert(child_ok(tree@, i, c as int, 0));
    }
    if let Some(j) = tree@[i].next {
        assert(node_ok(tree@, w, j as int, tree@.len() as int));
        assert(w.at[w.order[j as int] as int] == j);
    }
}

} // verus!
