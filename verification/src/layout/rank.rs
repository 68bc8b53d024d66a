//! Columns by longest path from the sources, with back edges taken out first.

use vstd::prelude::*;

use crate::layout::{MAX_EDGES, MAX_NODES, small};
use crate::view::ViewGraph;

verus! {

pub struct Ranked {
    pub rank: Vec<usize>,
    /// Edge indices that point backwards (cycles, self-loops).
    pub back: Vec<bool>,
}

impl Ranked {
    /// A rank per node below the node count, a flag per edge, and every
    /// forward edge going at least one column right.
    pub open spec fn wf_for(&self, g: &ViewGraph) -> bool {
        &&& self.rank@.len() == g.nodes@.len()
        &&& self.back@.len() == g.edges@.len()
        &&& forall|v: int| 0 <= v < self.rank@.len() ==> #[trigger] self.rank@[v] < g.nodes@.len()
        &&& forall|k: int|
            0 <= k < g.edges@.len() && !self.back@[k] ==> self.rank@[(#[trigger] g.edges@[k]).from.0 as int]
                < self.rank@[g.edges@[k].to.0 as int]
    }

    /// How many columns the ranks take: one past the largest rank.
    pub fn columns(&self) -> (c: usize)
        requires
            forall|v: int| 0 <= v < self.rank@.len() ==> #[trigger] self.rank@[v] < usize::MAX,
        ensures
            c == 0 <==> self.rank@.len() == 0,
            forall|v: int| 0 <= v < self.rank@.len() ==> #[trigger] self.rank@[v] < c,
            self.rank@.len() > 0 ==> exists|v: int| 0 <= v < self.rank@.len() && self.rank@[v] + 1 == c,
    {
        let mut m: usize = 0;
        let mut i: usize = 0;
        while i < self.rank.len()
            invariant
                i <= self.rank@.len(),
                forall|v: int| 0 <= v < self.rank@.len() ==> #[trigger] self.rank@[v] < usize::MAX,
                forall|v: int| 0 <= v < i ==> #[trigger] self.rank@[v] < m,
                i == 0 ==> m == 0,
                i > 0 ==> exists|v: int| 0 <= v < i && self.rank@[v] + 1 == m,
            decreases self.rank.len() - i,
        {
            let r = self.rank[i];
            if r + 1 > m {
                m = r + 1;
                assert(self.rank@[i as int] + 1 == m);
            } else {
                assert(i > 0);
            }
            i += 1;
        }
        m
    }
}

/// How many nodes the search has not reached yet.
spec fn whites(c: Seq<u8>) -> nat
    decreases c.len(),
{
    if c.len() == 0 {
        0
    } else {
        whites(c.drop_last()) + if c.last() == 0 { 1nat } else { 0nat }
    }
}

proof fn lemma_whites_update(c: Seq<u8>, i: int, x: u8)
    requires
        0 <= i < c.len(),
        x != 0,
    ensures
        whites(c.update(i, x)) + (if c[i] == 0 { 1nat } else { 0nat }) == whites(c),
    decreases c.len(),
{
    if i < c.len() - 1 {
        lemma_whites_update(c.drop_last(), i, x);
        assert(c.update(i, x).drop_last() =~= c.drop_last().update(i, x));
    } else {
        assert(c.update(i, x).drop_last() =~= c.drop_last());
    }
}

/// Out-edges still to visit from the search path, plus one per entry.
spec fn left(stack: Seq<(usize, usize)>, out: Seq<Vec<usize>>) -> nat
    decreases stack.len(),
{
    if stack.len() == 0 {
        0
    } else {
        left(stack.drop_last(), out) + (out[stack.last().0 as int]@.len() - stack.last().1 + 1) as nat
    }
}

proof fn lemma_left_top(stack: Seq<(usize, usize)>, out: Seq<Vec<usize>>, x: (usize, usize))
    requires
        stack.len() > 0,
        x.0 == stack.last().0,
        x.1 == stack.last().1 + 1,
        x.1 <= out[x.0 as int]@.len(),
    ensures
        left(stack.update(stack.len() - 1, x), out) == left(stack, out) - 1,
        forall|y: (usize, usize)| y.1 <= out[y.0 as int]@.len() ==> #[trigger] left(stack.update(stack.len() - 1, x).push(y), out)
            == left(stack.update(stack.len() - 1, x), out) + out[y.0 as int]@.len() - y.1 + 1,
{
    let t = stack.update(stack.len() - 1, x);
    assert(t.drop_last() =~= stack.drop_last());
    assert forall|y: (usize, usize)| y.1 <= out[y.0 as int]@.len() implies #[trigger] left(t.push(y), out) == left(t, out) + out[y.0 as int]@.len() - y.1 + 1 by {
        assert(t.push(y).drop_last() =~= t);
    }
}

/// Ranks by longest path over forward edges, after a depth-first search from
/// the roots (then every node, in order) marks an edge back when its target
/// is still on the search path.
/// How many nodes the search has finished.
spec fn blacks(c: Seq<u8>) -> nat
    decreases c.len(),
{
    if c.len() == 0 {
        0
    } else {
        blacks(c.drop_last()) + if c.last() == 2 { 1nat } else { 0nat }
    }
}

proof fn lemma_blacks_update(c: Seq<u8>, i: int, x: u8)
    requires
        0 <= i < c.len(),
    ensures
        blacks(c.update(i, x)) + (if c[i] == 2 { 1nat } else { 0nat }) == blacks(c) + (if x == 2 { 1nat } else { 0nat }),
    decreases c.len(),
{
    if i < c.len() - 1 {
        lemma_blacks_update(c.drop_last(), i, x);
        assert(c.update(i, x).drop_last() =~= c.drop_last().update(i, x));
    } else {
        assert(c.update(i, x).drop_last() =~= c.drop_last());
    }
}

proof fn lemma_blacks_len(c: Seq<u8>)
    ensures
        blacks(c) <= c.len(),
    decreases c.len(),
{
    if c.len() > 0 {
        lemma_blacks_len(c.drop_last());
    }
}

/// An edge flagged in `flag` runs from `a` to `b`.
pub open spec fn linked(g: &ViewGraph, flag: Seq<bool>, a: int, b: int) -> bool {
    exists|k: int| 0 <= k < flag.len() && flag[k] && (#[trigger] g.edges@[k]).from.0 == a && g.edges@[k].to.0 == b
}

/// `p` is a walk over edges flagged in `flag`.
pub open spec fn flagged_path(g: &ViewGraph, flag: Seq<bool>, p: Seq<usize>) -> bool {
    &&& p.len() >= 1
    &&& forall|i: int| 0 <= i < p.len() - 1 ==> #[trigger] linked(g, flag, p[i] as int, p[i + 1] as int)
}

/// What `rank` promises of a rank per node and a back flag per edge: every
/// forward edge goes right, every self-loop is back, a node past the first
/// column sits one right of a forward predecessor, and a back edge closes a
/// walk along forward edges.
pub open spec fn rank_law(g: &ViewGraph, rank: Seq<usize>, back: Seq<bool>) -> bool {
    &&& rank.len() == g.nodes@.len()
    &&& back.len() == g.edges@.len()
    &&& forall|v: int| 0 <= v < rank.len() ==> #[trigger] rank[v] < g.nodes@.len()
    &&& forall|k: int|
        0 <= k < g.edges@.len() && !back[k] ==> rank[(#[trigger] g.edges@[k]).from.0 as int] < rank[g.edges@[k].to.0 as int]
    &&& forall|k: int| 0 <= k < g.edges@.len() && (#[trigger] g.edges@[k]).from == g.edges@[k].to ==> back[k]
    &&& forall|v: int|
        0 <= v < rank.len() && #[trigger] rank[v] > 0 ==> exists|k: int|
            0 <= k < g.edges@.len() && !back[k] && (#[trigger] g.edges@[k]).to.0 == v && rank[v] == rank[g.edges@[k].from.0 as int] + 1
    &&& forall|k: int|
        0 <= k < g.edges@.len() && #[trigger] back[k] ==> exists|p: Seq<usize>|
            flagged_path(g, forward(back), p) && p[0] == g.edges@[k].to.0 && #[trigger] p.last() == g.edges@[k].from.0
}

/// Every edge of `g` flagged.
pub open spec fn all_edges(g: &ViewGraph) -> Seq<bool> {
    Seq::new(g.edges@.len(), |k: int| true)
}

/// No walk along the edges leads from an edge's target back to its source:
/// the graph has no cycle.
pub open spec fn acyclic(g: &ViewGraph) -> bool {
    forall|k: int, p: Seq<usize>|
        0 <= k < g.edges@.len() && #[trigger] flagged_path(g, all_edges(g), p) && p[0] == (#[trigger] g.edges@[k]).to.0
            ==> p.last() != g.edges@[k].from.0
}

/// A graph without cycles has no back edge: every edge goes right, so the
/// columns are the longest-path ranks.
pub proof fn lemma_acyclic_no_back(g: &ViewGraph, rank: Seq<usize>, back: Seq<bool>)
    requires
        rank_law(g, rank, back),
        acyclic(g),
    ensures
        forall|k: int| 0 <= k < g.edges@.len() ==> !(#[trigger] back[k]),
{
    assert forall|k: int| 0 <= k < g.edges@.len() implies !(#[trigger] back[k]) by {
        if back[k] {
            let p = choose|p: Seq<usize>|
                flagged_path(g, forward(back), p) && p[0] == g.edges@[k].to.0 && #[trigger] p.last() == g.edges@[k].from.0;
            assert forall|i: int| 0 <= i < p.len() - 1 implies #[trigger] linked(g, all_edges(g), p[i] as int, p[i + 1] as int) by {
                assert(linked(g, forward(back), p[i] as int, p[i + 1] as int));
                let j = choose|j: int|
                    0 <= j < forward(back).len() && forward(back)[j] && (#[trigger] g.edges@[j]).from.0 == p[i] as int
                        && g.edges@[j].to.0 == p[i + 1] as int;
                assert(all_edges(g)[j]);
            }
            assert(flagged_path(g, all_edges(g), p));
        }
    }
}

proof fn lemma_rank_at_least(g: &ViewGraph, r1: Seq<usize>, b1: Seq<bool>, r2: Seq<usize>, b2: Seq<bool>, v: int)
    requires
        g.wf(),
        rank_law(g, r1, b1),
        rank_law(g, r2, b2),
        forall|k: int| 0 <= k < g.edges@.len() ==> !(#[trigger] b2[k]),
        0 <= v < r1.len(),
    ensures
        r2[v] >= r1[v],
    decreases r1[v],
{
    if r1[v] > 0 {
        let k = choose|k: int|
            0 <= k < g.edges@.len() && !b1[k] && (#[trigger] g.edges@[k]).to.0 == v && r1[v] == r1[g.edges@[k].from.0 as int] + 1;
        let u = g.edges@[k].from.0 as int;
        assert(0 <= u < r1.len());
        lemma_rank_at_least(g, r1, b1, r2, b2, u);
        assert(!b2[k]);
        assert(r2[u] < r2[v]);
    }
}

/// In a graph without cycles the ranks are fixed: any two rankings that
/// keep `rank`'s promises agree, each node one column past its furthest
/// predecessor.
pub proof fn lemma_acyclic_ranks_unique(g: &ViewGraph, r1: Seq<usize>, b1: Seq<bool>, r2: Seq<usize>, b2: Seq<bool>)
    requires
        g.wf(),
        rank_law(g, r1, b1),
        rank_law(g, r2, b2),
        acyclic(g),
    ensures
        r1 == r2,
        b1 == b2,
{
    lemma_acyclic_no_back(g, r1, b1);
    lemma_acyclic_no_back(g, r2, b2);
    assert forall|v: int| 0 <= v < r1.len() implies r1[v] == r2[v] by {
        lemma_rank_at_least(g, r1, b1, r2, b2, v);
        lemma_rank_at_least(g, r2, b2, r1, b1, v);
    }
    assert(r1 =~= r2);
    assert(b1 =~= b2);
}

/// `c` columns hold these ranks: one past the largest, none for no nodes.
pub open spec fn spans_cols(rank: Seq<usize>, c: int) -> bool {
    &&& (c == 0 <==> rank.len() == 0)
    &&& forall|v: int| 0 <= v < rank.len() ==> #[trigger] rank[v] < c
    &&& rank.len() > 0 ==> exists|v: int| 0 <= v < rank.len() && #[trigger] rank[v] + 1 == c
}

/// The flags of the forward edges: those not marked back.
pub open spec fn forward(back: Seq<bool>) -> Seq<bool> {
    Seq::new(back.len(), |k: int| !back[k])
}

/// Every out-list names edges of its node, in increasing order, and every
/// edge is in the list of its source.
#[verifier::opaque]
spec fn out_ok(g: &ViewGraph, out: Seq<Vec<usize>>) -> bool {
    &&& out.len() == g.nodes@.len()
    &&& forall|v: int, q: int| 0 <= v < out.len() && 0 <= q < out[v]@.len() ==> (#[trigger] out[v]@[q]) < g.edges@.len()
        && g.edges@[out[v]@[q] as int].from.0 == v
    &&& forall|v: int, a: int, b: int| 0 <= v < out.len() && 0 <= a < b < out[v]@.len() ==> out[v]@[a] < out[v]@[b]
    &&& forall|k: int| 0 <= k < g.edges@.len() ==> out[(#[trigger] g.edges@[k]).from.0 as int]@.contains(k as usize)
}

/// What holds of every finished node and of the finish order.
#[verifier::opaque]
spec fn finished_ok(g: &ViewGraph, out: Seq<Vec<usize>>, colour: Seq<u8>, back: Seq<bool>, seen: Seq<bool>, post: Seq<usize>, fin: Seq<int>) -> bool {
    &&& colour.len() == g.nodes@.len()
    &&& fin.len() == g.nodes@.len()
    &&& forall|v: int| 0 <= v < colour.len() ==> #[trigger] colour[v] <= 2
    &&& forall|v: int|
        0 <= v < colour.len() && #[trigger] colour[v] == 2 ==> 0 <= fin[v] < post.len() && post[fin[v]] == v
    &&& forall|v: int, q: int|
        0 <= v < colour.len() && colour[v] == 2 && 0 <= q < out[v]@.len() ==> seen[#[trigger] out[v]@[q] as int] && (!back[out[v]@[q] as int] ==> colour[
            g.edges@[out[v]@[q] as int].to.0 as int] == 2 && fin[g.edges@[out[v]@[q] as int].to.0 as int] < fin[v])
    &&& forall|i: int| 0 <= i < post.len() ==> (#[trigger] post[i]) < colour.len() && colour[post[i] as int] == 2 && fin[post[i] as int] == i
    &&& post.len() == blacks(colour)
}

/// Flags per edge: tree edges are forward and scanned, unscanned edges are
/// forward, and every back edge closes a walk over tree edges.
#[verifier::opaque]
spec fn flags_ok(g: &ViewGraph, tree: Seq<bool>, back: Seq<bool>, seen: Seq<bool>) -> bool {
    &&& tree.len() == g.edges@.len()
    &&& back.len() == g.edges@.len()
    &&& seen.len() == g.edges@.len()
    &&& forall|k: int| 0 <= k < tree.len() && #[trigger] tree[k] ==> !back[k] && seen[k]
    &&& forall|k: int| 0 <= k < seen.len() && !#[trigger] seen[k] ==> !back[k]
    &&& forall|k: int|
        0 <= k < back.len() && #[trigger] back[k] ==> exists|p: Seq<usize>|
            flagged_path(g, tree, p) && p[0] == g.edges@[k].to.0 && #[trigger] p.last() == g.edges@[k].from.0
}

/// The search path: grey nodes, each once, each reached from the one below
/// by a tree edge; every scanned edge of it is back or leads to a finished
/// node or one higher on the path; a scanned edge belongs to a finished
/// node or to the scanned part of a path entry.
#[verifier::opaque]
spec fn path_ok(g: &ViewGraph, out: Seq<Vec<usize>>, colour: Seq<u8>, tree: Seq<bool>, back: Seq<bool>, seen: Seq<bool>, st: Seq<(usize, usize)>) -> bool {
    &&& forall|s: int|
        0 <= s < st.len() ==> (#[trigger] st[s]).0 < colour.len() && st[s].1 <= out[st[s].0 as int]@.len() && colour[st[s].0 as int] == 1
    &&& forall|s: int, t: int| 0 <= s < t < st.len() ==> (#[trigger] st[s]).0 != (#[trigger] st[t]).0
    &&& forall|v: int| 0 <= v < colour.len() && #[trigger] colour[v] == 1 ==> exists|s: int| 0 <= s < st.len() && (#[trigger] st[s]).0 == v
    &&& forall|s: int| 0 < s < st.len() ==> linked(g, tree, st[s - 1].0 as int, (#[trigger] st[s]).0 as int)
    &&& forall|s: int, q: int|
        0 <= s < st.len() && 0 <= q < st[s].1 ==> seen[#[trigger] out[st[s].0 as int]@[q] as int] && (!back[out[st[s].0 as int]@[q] as int] ==> (
        colour[g.edges@[out[st[s].0 as int]@[q] as int].to.0 as int] == 2 || exists|t: int|
            s < t < st.len() && (#[trigger] st[t]).0 == g.edges@[out[st[s].0 as int]@[q] as int].to.0))
    &&& forall|k: int|
        0 <= k < seen.len() && #[trigger] seen[k] ==> colour[g.edges@[k].from.0 as int] == 2 || exists|s: int, q: int|
            0 <= s < st.len() && st[s].0 == g.edges@[k].from.0 && 0 <= q < st[s].1 && #[trigger] out[st[s].0 as int]@[q] == k
}

/// Scanning the next edge of the top entry: its target is grey (the edge
/// turns back) or finished; the path keeps its shape.
proof fn lemma_scan_keeps(
    g: &ViewGraph,
    out: Seq<Vec<usize>>,
    colour: Seq<u8>,
    tree: Seq<bool>,
    back: Seq<bool>,
    seen: Seq<bool>,
    st: Seq<(usize, usize)>,
    u: usize,
    next: usize,
    ei: usize,
    mark: bool,
)
    requires
        g.wf(),
        out_ok(g, out),
        colour.len() == g.nodes@.len(),
        back.len() == g.edges@.len(),
        seen.len() == g.edges@.len(),
        path_ok(g, out, colour, tree, back, seen, st),
        st.len() > 0,
        st.last() == (u, next),
        next < out[u as int]@.len(),
        next < usize::MAX,
        ei == out[u as int]@[next as int],
        mark ==> colour[g.edges@[ei as int].to.0 as int] == 1,
        !mark ==> colour[g.edges@[ei as int].to.0 as int] == 2,
    ensures
        path_ok(g, out, colour, tree, if mark { back.update(ei as int, true) } else { back }, seen.update(ei as int, true), st.update(st.len() - 1, (u, (next + 1) as usize))),
{
    reveal(out_ok);
    reveal(finished_ok);
    reveal(flags_ok);
    reveal(path_ok);
    let top = st.len() - 1;
    assert(st[top] == (u, next));
    let st1 = st.update(top, (u, (next + 1) as usize));
    let back1 = if mark { back.update(ei as int, true) } else { back };
    let seen1 = seen.update(ei as int, true);
    assert forall|s: int| 0 <= s < st1.len() implies (#[trigger] st1[s]).0 == st[s].0 by {}
    assert forall|v: int| 0 <= v < colour.len() && #[trigger] colour[v] == 1 implies exists|s: int| 0 <= s < st1.len() && (#[trigger] st1[s]).0 == v by {
        let s = choose|s: int| 0 <= s < st.len() && (#[trigger] st[s]).0 == v;
        assert(st1[s].0 == v);
    }
    assert forall|s: int| 0 < s < st1.len() implies linked(g, tree, st1[s - 1].0 as int, (#[trigger] st1[s]).0 as int) by {
        assert(linked(g, tree, st[s - 1].0 as int, st[s].0 as int));
    }
    assert forall|s: int, q: int|
        0 <= s < st1.len() && 0 <= q < st1[s].1 implies seen1[#[trigger] out[st1[s].0 as int]@[q] as int] && (!back1[out[st1[s].0 as int]@[q] as int] ==> (
        colour[g.edges@[out[st1[s].0 as int]@[q] as int].to.0 as int] == 2 || exists|t: int|
            s < t < st1.len() && (#[trigger] st1[t]).0 == g.edges@[out[st1[s].0 as int]@[q] as int].to.0)) by {
        if s == top && q == next {
        } else {
            assert(q < st[s].1);
            let k = out[st[s].0 as int]@[q] as int;
            if k == ei {
                assert(g.edges@[k].from.0 == st[s].0);
                assert(g.edges@[ei as int].from.0 == u);
                if s != top {
                    assert(st[s].0 != st[top].0);
                }
                assert(s == top);
                assert(out[u as int]@[q] < out[u as int]@[next as int]);
            }
            if !back1[k] {
                assert(!back[k]);
                if colour[g.edges@[k].to.0 as int] != 2 {
                    let t = choose|t: int| s < t < st.len() && (#[trigger] st[t]).0 == g.edges@[k].to.0;
                    assert(st1[t].0 == g.edges@[k].to.0);
                }
            }
        }
    }
    assert forall|k: int|
        0 <= k < seen1.len() && #[trigger] seen1[k] implies colour[g.edges@[k].from.0 as int] == 2 || exists|s: int, q: int|
            0 <= s < st1.len() && st1[s].0 == g.edges@[k].from.0 && 0 <= q < st1[s].1 && #[trigger] out[st1[s].0 as int]@[q] == k by {
        if k == ei {
            assert(st1[top].0 == g.edges@[k].from.0);
            assert(out[st1[top].0 as int]@[next as int] == k);
            assert(0 <= next < st1[top].1);
        } else {
            assert(seen[k]);
            if colour[g.edges@[k].from.0 as int] != 2 {
                let (s, q) = choose|s: int, q: int|
                    0 <= s < st.len() && st[s].0 == g.edges@[k].from.0 && 0 <= q < st[s].1 && #[trigger] out[st[s].0 as int]@[q] == k;
                assert(st1[s].0 == st[s].0);
                assert(q < st1[s].1);
            }
        }
    }
}

/// Scanning the next edge of the top entry to a white node: it turns grey
/// and goes on top, the edge into the tree.
proof fn lemma_scan_white(
    g: &ViewGraph,
    out: Seq<Vec<usize>>,
    colour: Seq<u8>,
    tree: Seq<bool>,
    back: Seq<bool>,
    seen: Seq<bool>,
    st: Seq<(usize, usize)>,
    u: usize,
    next: usize,
    ei: usize,
    w: usize,
)
    requires
        g.wf(),
        out_ok(g, out),
        colour.len() == g.nodes@.len(),
        tree.len() == g.edges@.len(),
        back.len() == g.edges@.len(),
        seen.len() == g.edges@.len(),
        path_ok(g, out, colour, tree, back, seen, st),
        st.len() > 0,
        st.last() == (u, next),
        next < out[u as int]@.len(),
        next < usize::MAX,
        ei == out[u as int]@[next as int],
        w == g.edges@[ei as int].to.0,
        w < colour.len(),
        colour[w as int] == 0,
    ensures
        path_ok(
            g,
            out,
            colour.update(w as int, 1),
            tree.update(ei as int, true),
            back,
            seen.update(ei as int, true),
            st.update(st.len() - 1, (u, (next + 1) as usize)).push((w, 0usize)),
        ),
{
    reveal(out_ok);
    reveal(finished_ok);
    reveal(flags_ok);
    reveal(path_ok);
    let top = st.len() - 1;
    assert(st[top] == (u, next));
    let st1 = st.update(top, (u, (next + 1) as usize)).push((w, 0usize));
    let c1 = colour.update(w as int, 1);
    let t1 = tree.update(ei as int, true);
    let seen1 = seen.update(ei as int, true);
    assert forall|s: int| 0 <= s < st.len() implies (#[trigger] st1[s]).0 == st[s].0 && st[s].0 != w by {
        assert(colour[st[s].0 as int] == 1);
    }
    assert(st1[st.len() as int] == (w, 0usize));
    assert forall|s: int|
        0 <= s < st1.len() implies (#[trigger] st1[s]).0 < c1.len() && st1[s].1 <= out[st1[s].0 as int]@.len() && c1[st1[s].0 as int] == 1 by {
        if s < st.len() {
            assert(st[s].0 != w);
            assert(c1[st[s].0 as int] == colour[st[s].0 as int]);
            if s == top {
                assert(st1[s] == (u, (next + 1) as usize));
            } else {
                assert(st1[s] == st[s]);
            }
        } else {
            assert(st1[s] == (w, 0usize));
        }
    }
    assert forall|s: int, t: int| 0 <= s < t < st1.len() implies (#[trigger] st1[s]).0 != (#[trigger] st1[t]).0 by {
        if t == st.len() {
            assert(st[s].0 != w);
        } else {
            assert(st[s].0 != st[t].0);
        }
    }
    assert forall|v: int| 0 <= v < c1.len() && #[trigger] c1[v] == 1 implies exists|s: int| 0 <= s < st1.len() && (#[trigger] st1[s]).0 == v by {
        if v == w {
            assert(st1[st.len() as int].0 == v);
        } else {
            assert(c1[v] == colour[v]);
            assert(colour[v] == 1);
            let s = choose|s: int| 0 <= s < st.len() && (#[trigger] st[s]).0 == v;
            assert(st1[s].0 == st[s].0);
        }
    }
    assert forall|s: int| 0 < s < st1.len() implies linked(g, t1, st1[s - 1].0 as int, (#[trigger] st1[s]).0 as int) by {
        if s == st.len() {
            assert(t1[ei as int]);
            assert(g.edges@[ei as int].from.0 == u);
            assert(st1[s - 1].0 == u);
        } else {
            assert(linked(g, tree, st[s - 1].0 as int, st[s].0 as int));
            let j = choose|j: int| 0 <= j < tree.len() && tree[j] && (#[trigger] g.edges@[j]).from.0 == st[s - 1].0 as int && g.edges@[j].to.0 == st[s].0 as int;
            assert(t1[j]);
        }
    }
    assert forall|s: int, q: int|
        0 <= s < st1.len() && 0 <= q < st1[s].1 implies seen1[#[trigger] out[st1[s].0 as int]@[q] as int] && (!back[out[st1[s].0 as int]@[q] as int] ==> (
        c1[g.edges@[out[st1[s].0 as int]@[q] as int].to.0 as int] == 2 || exists|t: int|
            s < t < st1.len() && (#[trigger] st1[t]).0 == g.edges@[out[st1[s].0 as int]@[q] as int].to.0)) by {
        if s == top && q == next {
            assert(st1[st.len() as int].0 == w);
        } else {
            assert(s < st.len());
            assert(q < st[s].1);
            let k = out[st[s].0 as int]@[q] as int;
            if k == ei {
                assert(g.edges@[k].from.0 == st[s].0);
                if s != top {
                    assert(st[s].0 != st[top].0);
                }
                assert(out[u as int]@[q] < out[u as int]@[next as int]);
            }
            if !back[k] {
                if colour[g.edges@[k].to.0 as int] == 2 {
                    assert(g.edges@[k].to.0 != w);
                } else {
                    let t = choose|t: int| s < t < st.len() && (#[trigger] st[t]).0 == g.edges@[k].to.0;
                    assert(st1[t].0 == g.edges@[k].to.0);
                }
            }
        }
    }
    assert forall|k: int|
        0 <= k < seen1.len() && #[trigger] seen1[k] implies c1[g.edges@[k].from.0 as int] == 2 || exists|s: int, q: int|
            0 <= s < st1.len() && st1[s].0 == g.edges@[k].from.0 && 0 <= q < st1[s].1 && #[trigger] out[st1[s].0 as int]@[q] == k by {
        if k == ei {
            assert(st1[top].0 == g.edges@[k].from.0);
            assert(out[st1[top].0 as int]@[next as int] == k);
            assert(0 <= next < st1[top].1);
        } else {
            assert(seen[k]);
            if colour[g.edges@[k].from.0 as int] == 2 {
                assert(g.edges@[k].from.0 != w);
                assert(c1[g.edges@[k].from.0 as int] == 2);
            } else {
                let (s, q) = choose|s: int, q: int|
                    0 <= s < st.len() && st[s].0 == g.edges@[k].from.0 && 0 <= q < st[s].1 && #[trigger] out[st[s].0 as int]@[q] == k;
                assert(st1[s].0 == st[s].0);
                assert(q < st1[s].1);
            }
        }
    }
}

/// Finishing the top entry: it turns black and leaves the path.
proof fn lemma_finish_top(
    g: &ViewGraph,
    out: Seq<Vec<usize>>,
    colour: Seq<u8>,
    tree: Seq<bool>,
    back: Seq<bool>,
    seen: Seq<bool>,
    st: Seq<(usize, usize)>,
    u: usize,
)
    requires
        seen.len() == g.edges@.len(),
        g.wf(),
        out_ok(g, out),
        colour.len() == g.nodes@.len(),
        path_ok(g, out, colour, tree, back, seen, st),
        st.len() > 0,
        st.last().0 == u,
    ensures
        path_ok(g, out, colour.update(u as int, 2), tree, back, seen, st.drop_last()),
        forall|q: int|
            0 <= q < st.last().1 ==> seen[#[trigger] out[u as int]@[q] as int] && (!back[out[u as int]@[q] as int] ==> colour[
                g.edges@[out[u as int]@[q] as int].to.0 as int] == 2),
{
    reveal(out_ok);
    reveal(finished_ok);
    reveal(flags_ok);
    reveal(path_ok);
    let top = st.len() - 1;
    let st1 = st.drop_last();
    let c1 = colour.update(u as int, 2);
    assert forall|s: int| 0 <= s < st1.len() implies (#[trigger] st1[s]).0 == st[s].0 && st[s].0 != u by {
        assert(st[s].0 != st[top].0);
    }
    assert forall|v: int| 0 <= v < c1.len() && #[trigger] c1[v] == 1 implies exists|s: int| 0 <= s < st1.len() && (#[trigger] st1[s]).0 == v by {
        assert(colour[v] == 1);
        let s = choose|s: int| 0 <= s < st.len() && (#[trigger] st[s]).0 == v;
        assert(s != top);
        assert(st1[s].0 == v);
    }
    assert forall|s: int| 0 < s < st1.len() implies linked(g, tree, st1[s - 1].0 as int, (#[trigger] st1[s]).0 as int) by {
        assert(linked(g, tree, st[s - 1].0 as int, st[s].0 as int));
    }
    assert forall|s: int, q: int|
        0 <= s < st1.len() && 0 <= q < st1[s].1 implies seen[#[trigger] out[st1[s].0 as int]@[q] as int] && (!back[out[st1[s].0 as int]@[q] as int] ==> (
        c1[g.edges@[out[st1[s].0 as int]@[q] as int].to.0 as int] == 2 || exists|t: int|
            s < t < st1.len() && (#[trigger] st1[t]).0 == g.edges@[out[st1[s].0 as int]@[q] as int].to.0)) by {
        let k = out[st[s].0 as int]@[q] as int;
        assert(st1[s] == st[s]);
        if !back[k] && colour[g.edges@[k].to.0 as int] == 2 {
            assert(c1[g.edges@[k].to.0 as int] == 2);
        }
        if !back[k] && colour[g.edges@[k].to.0 as int] != 2 {
            let t = choose|t: int| s < t < st.len() && (#[trigger] st[t]).0 == g.edges@[k].to.0;
            if t == top {
                assert(c1[g.edges@[k].to.0 as int] == 2);
            } else {
                assert(st1[t].0 == g.edges@[k].to.0);
            }
        }
    }
    assert forall|k: int|
        0 <= k < seen.len() && #[trigger] seen[k] implies c1[g.edges@[k].from.0 as int] == 2 || exists|s: int, q: int|
            0 <= s < st1.len() && st1[s].0 == g.edges@[k].from.0 && 0 <= q < st1[s].1 && #[trigger] out[st1[s].0 as int]@[q] == k by {
        if colour[g.edges@[k].from.0 as int] != 2 {
            let (s, q) = choose|s: int, q: int|
                0 <= s < st.len() && st[s].0 == g.edges@[k].from.0 && 0 <= q < st[s].1 && #[trigger] out[st[s].0 as int]@[q] == k;
            if s != top {
                assert(st1[s] == st[s]);
                assert(0 <= s < st1.len() && st1[s].0 == g.edges@[k].from.0 && 0 <= q < st1[s].1 && out[st1[s].0 as int]@[q] == k);
            } else {
                assert(g.edges@[k].from.0 == u);
                assert(c1[g.edges@[k].from.0 as int] == 2);
            }
        } else {
            assert(c1[g.edges@[k].from.0 as int] == 2);
        }
    }
    assert forall|q: int|
        0 <= q < st.last().1 implies seen[#[trigger] out[u as int]@[q] as int] && (!back[out[u as int]@[q] as int] ==> colour[
            g.edges@[out[u as int]@[q] as int].to.0 as int] == 2) by {
        assert(out[st[top].0 as int]@[q] == out[u as int]@[q]);
    }
}

/// The next edge of a grey top entry has not been scanned.
proof fn lemma_fresh(g: &ViewGraph, out: Seq<Vec<usize>>, colour: Seq<u8>, tree: Seq<bool>, back: Seq<bool>, seen: Seq<bool>, st: Seq<(usize, usize)>, u: usize, next: usize, ei: usize)
    requires
        g.wf(),
        out_ok(g, out),
        colour.len() == g.nodes@.len(),
        seen.len() == g.edges@.len(),
        path_ok(g, out, colour, tree, back, seen, st),
        st.len() > 0,
        st.last() == (u, next),
        next < out[u as int]@.len(),
        ei == out[u as int]@[next as int],
    ensures
        !seen[ei as int],
        colour[u as int] == 1,
        u < colour.len(),
{
    reveal(out_ok);
    reveal(finished_ok);
    reveal(flags_ok);
    reveal(path_ok);
    let top = st.len() - 1;
    assert(st[top] == (u, next));
    if seen[ei as int] {
        assert(g.edges@[ei as int].from.0 == u);
        if colour[u as int] == 2 {
        } else {
            let (s, q) = choose|s: int, q: int|
                0 <= s < st.len() && st[s].0 == g.edges@[ei as int].from.0 && 0 <= q < st[s].1 && #[trigger] out[st[s].0 as int]@[q] == ei;
            if s != top {
                assert(st[s].0 != st[top].0);
            }
            assert(out[u as int]@[q] < out[u as int]@[next as int]);
        }
    }
}

/// Scanning an edge of grey node `u`: what holds of finished nodes stays.
proof fn lemma_scan_finished(g: &ViewGraph, out: Seq<Vec<usize>>, colour: Seq<u8>, back: Seq<bool>, seen: Seq<bool>, post: Seq<usize>, fin: Seq<int>, u: usize, ei: usize, mark: bool)
    requires
        g.wf(),
        out_ok(g, out),
        finished_ok(g, out, colour, back, seen, post, fin),
        u < colour.len(),
        colour[u as int] == 1,
        ei < g.edges@.len(),
        g.edges@[ei as int].from.0 == u,
        back.len() == g.edges@.len(),
        seen.len() == g.edges@.len(),
    ensures
        finished_ok(g, out, colour, if mark { back.update(ei as int, true) } else { back }, seen.update(ei as int, true), post, fin),
{
    reveal(out_ok);
    reveal(finished_ok);
    reveal(flags_ok);
    reveal(path_ok);
    let back1 = if mark { back.update(ei as int, true) } else { back };
    assert forall|v: int, q: int|
        0 <= v < colour.len() && colour[v] == 2 && 0 <= q < out[v]@.len() implies seen.update(ei as int, true)[#[trigger] out[v]@[q] as int] && (!back1[out[v]@[q] as int] ==> colour[
            g.edges@[out[v]@[q] as int].to.0 as int] == 2 && fin[g.edges@[out[v]@[q] as int].to.0 as int] < fin[v]) by {
        assert(g.edges@[out[v]@[q] as int].from.0 == v);
        assert(out[v]@[q] != ei);
    }
}

/// A white node turning grey: what holds of finished nodes stays.
proof fn lemma_grey_finished(g: &ViewGraph, out: Seq<Vec<usize>>, colour: Seq<u8>, back: Seq<bool>, seen: Seq<bool>, post: Seq<usize>, fin: Seq<int>, w: usize)
    requires
        g.wf(),
        out_ok(g, out),
        finished_ok(g, out, colour, back, seen, post, fin),
        w < colour.len(),
        colour[w as int] == 0,
    ensures
        finished_ok(g, out, colour.update(w as int, 1), back, seen, post, fin),
{
    reveal(out_ok);
    reveal(finished_ok);
    reveal(flags_ok);
    reveal(path_ok);
    let c1 = colour.update(w as int, 1);
    lemma_blacks_update(colour, w as int, 1);
    assert forall|v: int| 0 <= v < c1.len() implies #[trigger] c1[v] <= 2 by {
        assert(colour[v] <= 2);
    }
    assert forall|v: int| 0 <= v < c1.len() && #[trigger] c1[v] == 2 implies 0 <= fin[v] < post.len() && post[fin[v]] == v by {
        assert(colour[v] == 2);
    }
    assert forall|v: int, q: int|
        0 <= v < c1.len() && c1[v] == 2 && 0 <= q < out[v]@.len() implies seen[#[trigger] out[v]@[q] as int] && (!back[out[v]@[q] as int] ==> c1[
            g.edges@[out[v]@[q] as int].to.0 as int] == 2 && fin[g.edges@[out[v]@[q] as int].to.0 as int] < fin[v]) by {
        assert(colour[v] == 2);
        let t = g.edges@[out[v]@[q] as int].to.0 as int;
        if !back[out[v]@[q] as int] {
            assert(colour[t] == 2);
            assert(t != w);
        }
    }
    assert forall|i: int| 0 <= i < post.len() implies (#[trigger] post[i]) < c1.len() && c1[post[i] as int] == 2 && fin[post[i] as int] == i by {
        assert(colour[post[i] as int] == 2);
    }
}

/// The top entry `u` finishing: it turns black, takes the next finish time.
proof fn lemma_finish_finished(g: &ViewGraph, out: Seq<Vec<usize>>, colour: Seq<u8>, back: Seq<bool>, seen: Seq<bool>, post: Seq<usize>, fin: Seq<int>, u: usize)
    requires
        g.wf(),
        out_ok(g, out),
        finished_ok(g, out, colour, back, seen, post, fin),
        u < colour.len(),
        colour[u as int] == 1,
        forall|q: int|
            0 <= q < out[u as int]@.len() ==> seen[#[trigger] out[u as int]@[q] as int] && (!back[out[u as int]@[q] as int] ==> colour[
                g.edges@[out[u as int]@[q] as int].to.0 as int] == 2),
    ensures
        finished_ok(g, out, colour.update(u as int, 2), back, seen, post.push(u), fin.update(u as int, post.len() as int)),
{
    reveal(out_ok);
    reveal(finished_ok);
    reveal(flags_ok);
    reveal(path_ok);
    let c1 = colour.update(u as int, 2);
    let p1 = post.push(u);
    let f1 = fin.update(u as int, post.len() as int);
    lemma_blacks_update(colour, u as int, 2);
    assert forall|v: int| 0 <= v < c1.len() implies #[trigger] c1[v] <= 2 by {
        assert(colour[v] <= 2);
    }
    assert forall|v: int| 0 <= v < c1.len() && #[trigger] c1[v] == 2 implies 0 <= f1[v] < p1.len() && p1[f1[v]] == v by {
        if v != u {
            assert(colour[v] == 2);
        }
    }
    assert forall|v: int, q: int|
        0 <= v < c1.len() && c1[v] == 2 && 0 <= q < out[v]@.len() implies seen[#[trigger] out[v]@[q] as int] && (!back[out[v]@[q] as int] ==> c1[
            g.edges@[out[v]@[q] as int].to.0 as int] == 2 && f1[g.edges@[out[v]@[q] as int].to.0 as int] < f1[v]) by {
        let t = g.edges@[out[v]@[q] as int].to.0 as int;
        if v == u {
            if !back[out[v]@[q] as int] {
                assert(colour[t] == 2);
                assert(t != u);
            }
        } else {
            assert(colour[v] == 2);
            if !back[out[v]@[q] as int] {
                assert(colour[t] == 2);
                assert(t != u);
            }
        }
    }
    assert forall|i: int| 0 <= i < p1.len() implies (#[trigger] p1[i]) < c1.len() && c1[p1[i] as int] == 2 && f1[p1[i] as int] == i by {
        if i < post.len() {
            assert(colour[post[i] as int] == 2);
            assert(post[i] != u);
        }
    }
}

/// Starting a search at white node `r`.
proof fn lemma_start(g: &ViewGraph, out: Seq<Vec<usize>>, colour: Seq<u8>, tree: Seq<bool>, back: Seq<bool>, seen: Seq<bool>, post: Seq<usize>, fin: Seq<int>, r: usize)
    requires
        seen.len() == g.edges@.len(),
        colour.len() == g.nodes@.len(),
        g.wf(),
        out_ok(g, out),
        finished_ok(g, out, colour, back, seen, post, fin),
        path_ok(g, out, colour, tree, back, seen, Seq::empty()),
        r < colour.len(),
        colour[r as int] == 0,
    ensures
        path_ok(g, out, colour.update(r as int, 1), tree, back, seen, seq![(r, 0usize)]),
        finished_ok(g, out, colour.update(r as int, 1), back, seen, post, fin),
{
    reveal(out_ok);
    reveal(path_ok);
    lemma_grey_finished(g, out, colour, back, seen, post, fin, r);
    let c1 = colour.update(r as int, 1);
    let st1 = seq![(r, 0usize)];
    assert forall|v: int| 0 <= v < c1.len() && #[trigger] c1[v] == 1 implies exists|s: int| 0 <= s < st1.len() && (#[trigger] st1[s]).0 == v by {
        if v != r {
            assert(colour[v] == 1);
            let s = choose|s: int| 0 <= s < 0 && (#[trigger] Seq::<(usize, usize)>::empty()[s]).0 == v;
        }
        assert(st1[0].0 == r);
    }
    assert forall|k: int|
        0 <= k < seen.len() && #[trigger] seen[k] implies c1[g.edges@[k].from.0 as int] == 2 || exists|s: int, q: int|
            0 <= s < st1.len() && st1[s].0 == g.edges@[k].from.0 && 0 <= q < st1[s].1 && #[trigger] out[st1[s].0 as int]@[q] == k by {
        if colour[g.edges@[k].from.0 as int] != 2 {
            let (s0, q0) = choose|s0: int, q0: int|
                0 <= s0 < 0 && Seq::<(usize, usize)>::empty()[s0].0 == g.edges@[k].from.0 && 0 <= q0 < Seq::<(usize, usize)>::empty()[s0].1 && #[trigger] out[Seq::<(usize, usize)>::empty()[s0].0 as int]@[q0] == k;
        }
        assert(colour[g.edges@[k].from.0 as int] == 2);
        assert(g.edges@[k].from.0 != r);
        assert(c1[g.edges@[k].from.0 as int] == 2);
    }
}

/// With no search path, no node is grey.
proof fn lemma_no_grey(g: &ViewGraph, out: Seq<Vec<usize>>, colour: Seq<u8>, tree: Seq<bool>, back: Seq<bool>, seen: Seq<bool>)
    requires
        path_ok(g, out, colour, tree, back, seen, Seq::empty()),
    ensures
        forall|v: int| 0 <= v < colour.len() ==> #[trigger] colour[v] != 1,
{
    reveal(path_ok);
    assert forall|v: int| 0 <= v < colour.len() implies #[trigger] colour[v] != 1 by {
        if colour[v] == 1 {
            let s = choose|s: int| 0 <= s < 0 && (#[trigger] Seq::<(usize, usize)>::empty()[s]).0 == v;
        }
    }
}

/// An edge scanned to a grey node turns back: it closes the walk up the
/// search path from that node.
proof fn lemma_flags_back(g: &ViewGraph, out: Seq<Vec<usize>>, colour: Seq<u8>, tree: Seq<bool>, back: Seq<bool>, seen: Seq<bool>, st: Seq<(usize, usize)>, u: usize, ei: usize, w: usize)
    requires
        g.wf(),
        colour.len() == g.nodes@.len(),
        flags_ok(g, tree, back, seen),
        path_ok(g, out, colour, tree, back, seen, st),
        st.len() > 0,
        st.last().0 == u,
        ei < g.edges@.len(),
        !seen[ei as int],
        g.edges@[ei as int].from.0 == u,
        g.edges@[ei as int].to.0 == w,
        w < colour.len(),
        colour[w as int] == 1,
    ensures
        flags_ok(g, tree, back.update(ei as int, true), seen.update(ei as int, true)),
{
    reveal(flags_ok);
    reveal(path_ok);
    let sw = choose|s: int| 0 <= s < st.len() && (#[trigger] st[s]).0 == w;
    let p = Seq::new((st.len() - sw) as nat, |i: int| st[sw + i].0);
    assert forall|i: int| 0 <= i < p.len() - 1 implies #[trigger] linked(g, tree, p[i] as int, p[i + 1] as int) by {
        assert(linked(g, tree, st[sw + i + 1 - 1].0 as int, st[sw + i + 1].0 as int));
    }
    assert(p.last() == st[st.len() - 1].0);
    assert(flagged_path(g, tree, p));
    let b1 = back.update(ei as int, true);
    let s1 = seen.update(ei as int, true);
    assert forall|k: int|
        0 <= k < b1.len() && #[trigger] b1[k] implies exists|p2: Seq<usize>|
            flagged_path(g, tree, p2) && p2[0] == g.edges@[k].to.0 && #[trigger] p2.last() == g.edges@[k].from.0 by {
        if k == ei {
            assert(p[0] == w);
        }
    }
    assert forall|k: int| 0 <= k < tree.len() && #[trigger] tree[k] implies !b1[k] && s1[k] by {
        if k == ei {
            assert(seen[k]);
        }
    }
}

/// An edge scanned to a white node joins the tree.
proof fn lemma_flags_tree(g: &ViewGraph, tree: Seq<bool>, back: Seq<bool>, seen: Seq<bool>, ei: usize)
    requires
        flags_ok(g, tree, back, seen),
        ei < g.edges@.len(),
        !seen[ei as int],
    ensures
        flags_ok(g, tree.update(ei as int, true), back, seen.update(ei as int, true)),
{
    reveal(flags_ok);
    assert forall|k2: int| 0 <= k2 < back.len() && #[trigger] back[k2] implies exists|p: Seq<usize>|
        flagged_path(g, tree.update(ei as int, true), p) && p[0] == g.edges@[k2].to.0 && #[trigger] p.last() == g.edges@[k2].from.0 by {
        let p = choose|p: Seq<usize>| flagged_path(g, tree, p) && p[0] == g.edges@[k2].to.0 && #[trigger] p.last() == g.edges@[k2].from.0;
        lemma_path_grow(g, tree, ei as int, p);
    }
}

/// An edge scanned to a finished node stays as it is.
proof fn lemma_flags_seen(g: &ViewGraph, tree: Seq<bool>, back: Seq<bool>, seen: Seq<bool>, ei: usize)
    requires
        flags_ok(g, tree, back, seen),
        ei < g.edges@.len(),
    ensures
        flags_ok(g, tree, back, seen.update(ei as int, true)),
{
    reveal(flags_ok);
}

/// The top entry of the search path is grey and in range.
proof fn lemma_fresh_top(g: &ViewGraph, out: Seq<Vec<usize>>, colour: Seq<u8>, tree: Seq<bool>, back: Seq<bool>, seen: Seq<bool>, st: Seq<(usize, usize)>, u: usize)
    requires
        path_ok(g, out, colour, tree, back, seen, st),
        st.len() > 0,
        st.last().0 == u,
    ensures
        u < colour.len(),
        colour[u as int] == 1,
{
    reveal(path_ok);
    assert(st[st.len() - 1].0 == u);
}

proof fn lemma_path_grow(g: &ViewGraph, tree: Seq<bool>, k: int, p: Seq<usize>)
    requires
        0 <= k < tree.len(),
        flagged_path(g, tree, p),
    ensures
        flagged_path(g, tree.update(k, true), p),
{
    let t2 = tree.update(k, true);
    assert forall|i: int| 0 <= i < p.len() - 1 implies #[trigger] linked(g, t2, p[i] as int, p[i + 1] as int) by {
        assert(linked(g, tree, p[i] as int, p[i + 1] as int));
        let j = choose|j: int| 0 <= j < tree.len() && tree[j] && (#[trigger] g.edges@[j]).from.0 == p[i] as int && g.edges@[j].to.0 == p[i + 1] as int;
        assert(t2[j]);
    }
}

proof fn lemma_tree_forward(g: &ViewGraph, tree: Seq<bool>, back: Seq<bool>, p: Seq<usize>)
    requires
        tree.len() == back.len(),
        forall|k: int| 0 <= k < tree.len() && #[trigger] tree[k] ==> !back[k],
        flagged_path(g, tree, p),
    ensures
        flagged_path(g, forward(back), p),
{
    assert forall|i: int| 0 <= i < p.len() - 1 implies #[trigger] linked(g, forward(back), p[i] as int, p[i + 1] as int) by {
        assert(linked(g, tree, p[i] as int, p[i + 1] as int));
        let j = choose|j: int| 0 <= j < tree.len() && tree[j] && (#[trigger] g.edges@[j]).from.0 == p[i] as int && g.edges@[j].to.0 == p[i + 1] as int;
        assert(forward(back)[j]);
    }
}

/// Ranks by longest path over forward edges, after a depth-first search from
/// the roots (then every node, in order) marks an edge back when its target
/// is still on the search path. The ranks go in reverse finishing order of
/// the search, which puts every forward edge's source first.
#[verifier::spinoff_prover]
#[verifier::rlimit(100)]
pub fn rank(g: &ViewGraph) -> (r: Ranked)
    requires
        small(g),
    ensures
        r.wf_for(g),
        forall|k: int|
            0 <= k < g.edges@.len() && (#[trigger] g.edges@[k]).from == g.edges@[k].to ==> r.back@[k],
        forall|v: int|
            0 <= v < r.rank@.len() && #[trigger] r.rank@[v] > 0 ==> exists|k: int|
                0 <= k < g.edges@.len() && !r.back@[k] && (#[trigger] g.edges@[k]).to.0 == v && r.rank@[v] == r.rank@[g.edges@[k].from.0 as int] + 1,
        forall|k: int|
            0 <= k < g.edges@.len() && #[trigger] r.back@[k] ==> exists|p: Seq<usize>|
                flagged_path(g, forward(r.back@), p) && p[0] == g.edges@[k].to.0 && #[trigger] p.last() == g.edges@[k].from.0,        rank_law(g, r.rank@, r.back@),
{
    let n = g.nodes.len();
    let m = g.edges.len();
    let mut out: Vec<Vec<usize>> = Vec::new();
    let mut indeg: Vec<usize> = Vec::new();
    let mut i: usize = 0;
    while i < n
        invariant
            i <= n,
            n == g.nodes@.len(),
            out@.len() == i,
            indeg@.len() == i,
            forall|v: int| 0 <= v < i ==> (#[trigger] out@[v])@.len() == 0,
            forall|v: int| 0 <= v < i ==> #[trigger] indeg@[v] == 0,
        decreases n - i,
    {
        out.push(Vec::new());
        indeg.push(0);
        i += 1;
    }
    let mut k: usize = 0;
    while k < m
        invariant
            k <= m,
            m == g.edges@.len(),
            n == g.nodes@.len(),
            small(g),
            out@.len() == n,
            indeg@.len() == n,
            forall|v: int, q: int| 0 <= v < n && 0 <= q < out@[v]@.len() ==> (#[trigger] out@[v]@[q]) < k && g.edges@[out@[v]@[q] as int].from.0 == v,
            forall|v: int, a: int, b: int| 0 <= v < n && 0 <= a < b < out@[v]@.len() ==> out@[v]@[a] < out@[v]@[b],
            forall|e: int| 0 <= e < k ==> out@[(#[trigger] g.edges@[e]).from.0 as int]@.contains(e as usize),
            forall|v: int| 0 <= v < n ==> #[trigger] indeg@[v] <= k,
        decreases m - k,
    {
        let e = &g.edges[k];
        let f = e.from.0 as usize;
        let t = e.to.0 as usize;
        let ghost o0 = out@;
        out[f].push(k);
        proof {
            assert(out@[f as int]@ == o0[f as int]@.push(k));
            assert forall|x: int| 0 <= x < k + 1 implies out@[(#[trigger] g.edges@[x]).from.0 as int]@.contains(x as usize) by {
                let fx = g.edges@[x].from.0 as int;
                if x == k {
                    assert(out@[f as int]@[o0[f as int]@.len() as int] == k);
                } else {
                    assert(o0[fx]@.contains(x as usize));
                    let q = choose|q: int| 0 <= q < o0[fx]@.len() && o0[fx]@[q] == x as usize;
                    if fx == f {
                        assert(out@[fx]@[q] == x as usize);
                    } else {
                        assert(out@[fx] == o0[fx]);
                    }
                }
            }
            assert forall|v: int, a: int, b: int| 0 <= v < n && 0 <= a < b < out@[v]@.len() implies out@[v]@[a] < out@[v]@[b] by {
                if v == f && b == o0[f as int]@.len() {
                    assert(o0[f as int]@[a] < k);
                } else if v == f {
                } else {
                    assert(out@[v] == o0[v]);
                }
            }
        }
        indeg.set(t, indeg[t] + 1);
        k += 1;
    }
    proof {
        reveal(out_ok);
        assert(out_ok(g, out@));
    }
    // Depth-first search from the roots, in node order; grey targets mark back edges.
    let mut colour: Vec<u8> = Vec::new();
    let mut i: usize = 0;
    while i < n
        invariant
            i <= n,
            colour@.len() == i,
            forall|v: int| 0 <= v < i ==> #[trigger] colour@[v] == 0,
        decreases n - i,
    {
        colour.push(0);
        i += 1;
    }
    let mut back: Vec<bool> = Vec::new();
    let mut k: usize = 0;
    while k < m
        invariant
            k <= m,
            back@.len() == k,
            forall|x: int| 0 <= x < k ==> !#[trigger] back@[x],
        decreases m - k,
    {
        back.push(false);
        k += 1;
    }
    let ghost mut tree: Seq<bool> = Seq::new(m as nat, |x: int| false);
    let ghost mut seen: Seq<bool> = Seq::new(m as nat, |x: int| false);
    let ghost mut fin: Seq<int> = Seq::new(n as nat, |x: int| 0int);
    let mut post: Vec<usize> = Vec::new();
    proof {
        assert(blacks(colour@) == 0) by {
            lemma_no_blacks(colour@);
        }
    }
    let mut roots: Vec<usize> = Vec::new();
    let mut v: usize = 0;
    while v < n
        invariant
            v <= n,
            forall|q: int| 0 <= q < roots@.len() ==> #[trigger] roots@[q] < n,
            roots@.len() <= v,
            indeg@.len() == n,
        decreases n - v,
    {
        if indeg[v] == 0 {
            roots.push(v);
        }
        v += 1;
    }
    let r0 = roots.len();
    let mut v: usize = 0;
    while v < n
        invariant
            v <= n,
            r0 <= n,
            forall|q: int| 0 <= q < roots@.len() ==> #[trigger] roots@[q] < n,
            roots@.len() == r0 + v,
            forall|x: int| 0 <= x < v ==> #[trigger] roots@[r0 + x] == x,
        decreases n - v,
    {
        roots.push(v);
        v += 1;
    }
    proof {
        reveal(finished_ok);
        reveal(flags_ok);
        reveal(path_ok);
        assert(finished_ok(g, out@, colour@, back@, seen, post@, fin));
        assert(flags_ok(g, tree, back@, seen));
        assert(path_ok(g, out@, colour@, tree, back@, seen, Seq::empty()));
    }
    let mut ri: usize = 0;
    while ri < roots.len()
        invariant
            seen.len() == m,
            tree.len() == m,
            ri <= roots@.len(),
            n == g.nodes@.len(),
            m == g.edges@.len(),
            small(g),
            forall|q: int| 0 <= q < roots@.len() ==> #[trigger] roots@[q] < n,
            colour@.len() == n,
            back@.len() == m,
            out_ok(g, out@),
            finished_ok(g, out@, colour@, back@, seen, post@, fin),
            flags_ok(g, tree, back@, seen),
            path_ok(g, out@, colour@, tree, back@, seen, Seq::empty()),
            forall|q: int| 0 <= q < ri ==> colour@[#[trigger] roots@[q] as int] == 2,
        decreases roots.len() - ri,
    {
        let r = roots[ri];
        if colour[r] == 0 {
            let mut stack: Vec<(usize, usize)> = Vec::new();
            proof {
                lemma_whites_update(colour@, r as int, 1);
                lemma_start(g, out@, colour@, tree, back@, seen, post@, fin, r);
            }
            stack.push((r, 0));
            let ghost cr = colour@;
            colour.set(r, 1);
            proof {
                assert(stack@ == seq![(r, 0usize)]);
                assert forall|q: int| 0 <= q < ri implies colour@[#[trigger] roots@[q] as int] == 2 by {
                    assert(cr[roots@[q] as int] == 2);
                }
            }
            while stack.len() > 0
                invariant
                    n == g.nodes@.len(),
                    m == g.edges@.len(),
                    small(g),
                    r < n,
                    colour@.len() == n,
                    back@.len() == m,
                    seen.len() == m,
                    tree.len() == m,
                    colour@[r as int] >= 1,
                    ri < roots@.len(),
                    out_ok(g, out@),
                    finished_ok(g, out@, colour@, back@, seen, post@, fin),
                    flags_ok(g, tree, back@, seen),
                    path_ok(g, out@, colour@, tree, back@, seen, stack@),
                    forall|q: int| 0 <= q < ri ==> colour@[#[trigger] roots@[q] as int] == 2,
                    forall|q: int| 0 <= q < roots@.len() ==> #[trigger] roots@[q] < n,
                decreases whites(colour@), left(stack@, out@),
            {
                let top = stack.len() - 1;
                let (u, next) = stack[top];
                let ghost w0 = whites(colour@);
                let ghost l0 = left(stack@, out@);
                let ghost st0 = stack@;
                let ghost bk = back@;
                let ghost cl = colour@;
                proof {
                    reveal(path_ok);
                    reveal(out_ok);
                    assert(st0[top as int] == (u, next));
                    assert(u < n && next <= out@[u as int]@.len());
                }
                if next < out[u].len() {
                    let ei = out[u][next];
                    proof {
                        lemma_left_top(stack@, out@, (u, (next + 1) as usize));
                        lemma_fresh(g, out@, colour@, tree, back@, seen, st0, u, next, ei);
                        reveal(out_ok);
                        assert(ei < m && g.edges@[ei as int].from.0 == u);
                    }
                    stack.set(top, (u, next + 1));
                    let w = g.edges[ei].to.0 as usize;
                    if colour[w] == 1 {
                        back.set(ei, true);
                        proof {
                            lemma_scan_keeps(g, out@, cl, tree, bk, seen, st0, u, next, ei, true);
                            lemma_scan_finished(g, out@, cl, bk, seen, post@, fin, u, ei, true);
                            lemma_flags_back(g, out@, cl, tree, bk, seen, st0, u, ei, w);
                            seen = seen.update(ei as int, true);
                        }
                        assert(whites(colour@) == w0);
                        assert(left(stack@, out@) < l0);
                    } else if colour[w] == 0 {
                        proof {
                            lemma_whites_update(colour@, w as int, 1);
                            lemma_scan_white(g, out@, colour@, tree, back@, seen, st0, u, next, ei, w);
                            lemma_scan_finished(g, out@, colour@, back@, seen, post@, fin, u, ei, false);
                            lemma_grey_finished(g, out@, colour@, back@, seen.update(ei as int, true), post@, fin, w);
                            lemma_flags_tree(g, tree, back@, seen, ei);
                            tree = tree.update(ei as int, true);
                            seen = seen.update(ei as int, true);
                        }
                        colour.set(w, 1);
                        stack.push((w, 0));
                        assert(whites(colour@) < w0);
                        assert forall|q: int| 0 <= q < ri implies colour@[#[trigger] roots@[q] as int] == 2 by {
                            assert(cl[roots@[q] as int] == 2);
                            assert(cl[w as int] == 0);
                            assert(roots@[q] != w);
                        }
                        assert(colour@[r as int] >= 1) by {
                            assert(cl[r as int] >= 1);
                        }
                    } else {
                        proof {
                            reveal(finished_ok);
                            assert(colour@[w as int] == 2);
                            lemma_scan_keeps(g, out@, colour@, tree, back@, seen, st0, u, next, ei, false);
                            lemma_scan_finished(g, out@, colour@, back@, seen, post@, fin, u, ei, false);
                            lemma_flags_seen(g, tree, back@, seen, ei);
                            seen = seen.update(ei as int, true);
                        }
                        assert(whites(colour@) == w0);
                        assert(left(stack@, out@) < l0);
                    }
                } else {
                    proof {
                        lemma_fresh_top(g, out@, colour@, tree, back@, seen, st0, u);
                        lemma_finish_top(g, out@, colour@, tree, back@, seen, st0, u);
                        lemma_finish_finished(g, out@, colour@, back@, seen, post@, fin, u);
                        lemma_whites_update(colour@, u as int, 2);
                        assert(stack@.drop_last() =~= stack@.subrange(0, top as int));
                        fin = fin.update(u as int, post@.len() as int);
                    }
                    colour.set(u, 2);
                    stack.pop();
                    post.push(u);
                    proof {
                        assert(stack@ == st0.drop_last());
                    }
                    assert(whites(colour@) <= w0);
                    assert(left(stack@, out@) < l0);
                    assert forall|q: int| 0 <= q < ri implies colour@[#[trigger] roots@[q] as int] == 2 by {
                        assert(cl[roots@[q] as int] == 2);
                    }
                    assert(colour@[r as int] >= 1) by {
                        assert(cl[r as int] >= 1);
                    }
                }
            }
            proof {
                assert(stack@ =~= Seq::<(usize, usize)>::empty());
                lemma_no_grey(g, out@, colour@, tree, back@, seen);
                reveal(finished_ok);
                assert(colour@[r as int] == 2);
            }
        } else {
            proof {
                lemma_no_grey(g, out@, colour@, tree, back@, seen);
                reveal(finished_ok);
                assert(colour@[r as int] <= 2);
            }
        }
        ri += 1;
    }
    proof {
        assert forall|x: int| 0 <= x < n implies #[trigger] colour@[x] == 2 by {
            assert(roots@[r0 + x] == x);
        }
        lemma_blacks_len(colour@);
        reveal(finished_ok);
    }
    // Longest path over forward edges, in reverse finishing order.
    let mut rank: Vec<usize> = Vec::new();
    let mut i: usize = 0;
    while i < n
        invariant
            i <= n,
            rank@.len() == i,
            forall|x: int| 0 <= x < i ==> #[trigger] rank@[x] == 0,
        decreases n - i,
    {
        rank.push(0);
        i += 1;
    }
    let pn = post.len();
    proof {
        reveal(finished_ok);
        assert forall|x: int| 0 <= x < n implies #[trigger] rank@[x] + fin[x] < pn by {
            assert(colour@[x] == 2);
        }
    }
    let mut idx: usize = pn;
    while idx > 0
        invariant
            idx <= pn,
            pn == post@.len(),
            pn <= n,
            n == g.nodes@.len(),
            m == g.edges@.len(),
            small(g),
            rank@.len() == n,
            back@.len() == m,
            out_ok(g, out@),
            finished_ok(g, out@, colour@, back@, seen, post@, fin),
            forall|x: int| 0 <= x < n ==> #[trigger] colour@[x] == 2,
            forall|x: int| 0 <= x < n ==> #[trigger] rank@[x] + fin[x] < pn,
            forall|e: int|
                0 <= e < m && !back@[e] && fin[(#[trigger] g.edges@[e]).from.0 as int] >= idx ==> rank@[g.edges@[e].to.0 as int] >= rank@[g.edges@[e].from.0 as int] + 1,
            forall|x: int|
                0 <= x < n && #[trigger] rank@[x] > 0 ==> exists|e: int|
                    0 <= e < m && !back@[e] && (#[trigger] g.edges@[e]).to.0 == x && fin[g.edges@[e].from.0 as int] >= idx && rank@[x] == rank@[g.edges@[e].from.0 as int] + 1,
        decreases idx,
    {
        idx -= 1;
        let u = post[idx];
        proof {
            reveal(finished_ok);
            reveal(out_ok);
            assert(fin[u as int] == idx);
            assert(u < n);
            assert(out@.len() == n);
        }
        let ru = rank[u];
        let mut j: usize = 0;
        while j < out[u].len()
            invariant
                idx < pn,
                pn == post@.len(),
                pn <= n,
                u < n,
                n == g.nodes@.len(),
                m == g.edges@.len(),
                small(g),
                rank@.len() == n,
                back@.len() == m,
                out_ok(g, out@),
                finished_ok(g, out@, colour@, back@, seen, post@, fin),
                forall|x: int| 0 <= x < n ==> #[trigger] colour@[x] == 2,
                fin[u as int] == idx,
                rank@[u as int] == ru,
                out@.len() == n,
                forall|x: int| 0 <= x < n ==> #[trigger] rank@[x] + fin[x] < pn,
                forall|e: int|
                    0 <= e < m && !back@[e] && fin[(#[trigger] g.edges@[e]).from.0 as int] > idx ==> rank@[g.edges@[e].to.0 as int] >= rank@[g.edges@[e].from.0 as int] + 1,
                forall|q: int|
                    0 <= q < j && !back@[#[trigger] out@[u as int]@[q] as int] ==> rank@[g.edges@[out@[u as int]@[q] as int].to.0 as int] >= ru + 1,
                forall|x: int|
                    0 <= x < n && #[trigger] rank@[x] > 0 ==> exists|e: int|
                        0 <= e < m && !back@[e] && (#[trigger] g.edges@[e]).to.0 == x && fin[g.edges@[e].from.0 as int] >= idx && rank@[x] == rank@[g.edges@[e].from.0 as int] + 1,
            decreases out[u as int]@.len() - j,
        {
            proof {
                reveal(out_ok);
            }
            let ei = out[u][j];
            if !back[ei] {
                let w = g.edges[ei].to.0 as usize;
                proof {
                    reveal(finished_ok);
                    reveal(out_ok);
                    assert(colour@[u as int] == 2);
                    assert(fin[w as int] < fin[u as int]);
                }
                if ru + 1 > rank[w] {
                    let ghost r0s = rank@;
                    rank.set(w, ru + 1);
                    proof {
                        assert forall|x: int| 0 <= x < n && #[trigger] rank@[x] > 0 implies exists|e: int|
                            0 <= e < m && !back@[e] && (#[trigger] g.edges@[e]).to.0 == x && fin[g.edges@[e].from.0 as int] >= idx && rank@[x] == rank@[g.edges@[e].from.0 as int] + 1 by {
                            if x == w {
                                assert(g.edges@[ei as int].to.0 == x);
                            } else {
                                assert(r0s[x] > 0);
                                let e = choose|e: int|
                                    0 <= e < m && !back@[e] && (#[trigger] g.edges@[e]).to.0 == x && fin[g.edges@[e].from.0 as int] >= idx && r0s[x] == r0s[g.edges@[e].from.0 as int] + 1;
                                assert(g.edges@[e].from.0 != w);
                            }
                        }
                    }
                }
            }
            j += 1;
        }
        proof {
            reveal(finished_ok);
            reveal(out_ok);
            assert forall|e: int|
                0 <= e < m && !back@[e] && fin[(#[trigger] g.edges@[e]).from.0 as int] >= idx implies rank@[g.edges@[e].to.0 as int] >= rank@[g.edges@[e].from.0 as int] + 1 by {
                if fin[g.edges@[e].from.0 as int] == idx {
                    assert(colour@[g.edges@[e].from.0 as int] == 2);
                    assert(g.edges@[e].from.0 == u) by {
                        assert(post@[fin[g.edges@[e].from.0 as int]] == g.edges@[e].from.0);
                    }
                    assert(out@[g.edges@[e].from.0 as int]@.contains(e as usize));
                    let q = choose|q: int| 0 <= q < out@[g.edges@[e].from.0 as int]@.len() && out@[g.edges@[e].from.0 as int]@[q] == e as usize;
                    assert(out@[u as int]@[q] == e);
                }
            }
        }
    }
    proof {
        reveal(finished_ok);
        reveal(out_ok);
        reveal(flags_ok);
        assert forall|x: int| 0 <= x < n implies #[trigger] rank@[x] < n by {
            assert(colour@[x] == 2);
            assert(fin[x] >= 0);
        }
        assert forall|e: int| 0 <= e < m && !back@[e] implies rank@[(#[trigger] g.edges@[e]).from.0 as int] < rank@[g.edges@[e].to.0 as int] by {
            assert(colour@[g.edges@[e].from.0 as int] == 2);
            assert(fin[g.edges@[e].from.0 as int] >= 0);
        }
        assert forall|e: int| 0 <= e < m && (#[trigger] g.edges@[e]).from == g.edges@[e].to implies back@[e] by {
            if !back@[e] {
                let f = g.edges@[e].from.0 as int;
                assert(out@[f]@.contains(e as usize));
                let q = choose|q: int| 0 <= q < out@[f]@.len() && out@[f]@[q] == e as usize;
                assert(colour@[f] == 2);
                assert(fin[g.edges@[e].to.0 as int] < fin[f]);
            }
        }
        assert forall|e: int| 0 <= e < m && #[trigger] back@[e] implies exists|p: Seq<usize>|
            flagged_path(g, forward(back@), p) && p[0] == g.edges@[e].to.0 && #[trigger] p.last() == g.edges@[e].from.0 by {
            let p = choose|p: Seq<usize>| flagged_path(g, tree, p) && p[0] == g.edges@[e].to.0 && #[trigger] p.last() == g.edges@[e].from.0;
            lemma_tree_forward(g, tree, back@, p);
        }
    }
    Ranked { rank, back }
}

proof fn lemma_no_blacks(c: Seq<u8>)
    requires
        forall|v: int| 0 <= v < c.len() ==> #[trigger] c[v] == 0,
    ensures
        blacks(c) == 0,
    decreases c.len(),
{
    if c.len() > 0 {
        lemma_no_blacks(c.drop_last());
    }
}


} // verus!
