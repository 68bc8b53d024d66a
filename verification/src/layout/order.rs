//! Layered graph with dummy pass nodes; barycenter sweeps propose column
//! orders, `layout` picks one by the drawn result.

use vstd::prelude::*;

use crate::layout::rank::Ranked;
use crate::layout::{EdgeId, MAX_EDGES, MAX_NODES, MAX_SWEEPS, small};
use crate::view::{NodeId, ViewGraph};

verus! {

/// A node in the layered graph: a real node or a pass slot for a long edge.
#[derive(Debug, Clone, Copy, PartialEq, Eq, Structural, Hash)]
pub enum LNode {
    Real(NodeId),
    Pass(EdgeId),
}

/// One column hop of a forward edge.
#[derive(Debug, Clone, Copy, PartialEq, Eq, Structural)]
pub struct Segment {
    pub edge: EdgeId,
    /// Column of `from`; `to` is in `col + 1`.
    pub col: usize,
    pub from: LNode,
    pub to: LNode,
}

pub struct Layered {
    pub columns: Vec<Vec<LNode>>,
    pub segments: Vec<Segment>,
    /// Every forward edge that spans more than one column, with the columns
    /// its pass slots sit in, in edge order.
    pub passes: Vec<(EdgeId, Vec<usize>)>,
    /// Forward edges leaving each node.
    pub out_deg: Vec<usize>,
    /// Forward edges arriving at each node.
    pub in_deg: Vec<usize>,
}

/// Most segments a layered graph of a small graph has.
pub const MAX_SEGMENTS: usize = 4194304;

/// A layered node that names a node or an edge of `g`.
pub open spec fn lnode_ok(g: &ViewGraph, n: LNode) -> bool {
    match n {
        LNode::Real(id) => id.0 < g.nodes@.len(),
        LNode::Pass(e) => e.0 < g.edges@.len(),
    }
}

/// The column of a forward edge's source.
pub open spec fn lo_of(g: &ViewGraph, r: &Ranked, e: int) -> int {
    r.rank@[g.edges@[e].from.0 as int] as int
}

/// The column of a forward edge's target.
pub open spec fn hi_of(g: &ViewGraph, r: &Ranked, e: int) -> int {
    r.rank@[g.edges@[e].to.0 as int] as int
}

/// The hop of forward edge `e` that leaves column `c`.
pub open spec fn hop(g: &ViewGraph, r: &Ranked, e: int, c: int) -> Segment {
    let id = EdgeId(e as u32);
    Segment {
        edge: id,
        col: c as usize,
        from: if c == lo_of(g, r, e) { LNode::Real(g.edges@[e].from) } else { LNode::Pass(id) },
        to: if c + 1 == hi_of(g, r, e) { LNode::Real(g.edges@[e].to) } else { LNode::Pass(id) },
    }
}

/// The hops of forward edge `e`, left to right.
pub open spec fn hops(g: &ViewGraph, r: &Ranked, e: int) -> Seq<Segment> {
    Seq::new((hi_of(g, r, e) - lo_of(g, r, e)) as nat, |j: int| hop(g, r, e, lo_of(g, r, e) + j))
}

/// The hops of the forward edges among the first `k`, in edge order.
pub open spec fn segs_spec(g: &ViewGraph, r: &Ranked, k: int) -> Seq<Segment>
    decreases k,
{
    if k <= 0 {
        Seq::empty()
    } else if r.back@[k - 1] {
        segs_spec(g, r, k - 1)
    } else {
        segs_spec(g, r, k - 1) + hops(g, r, k - 1)
    }
}

/// The nodes below `i` ranked in column `c`, in index order.
pub open spec fn reals(r: &Ranked, c: int, i: int) -> Seq<LNode>
    decreases i,
{
    if i <= 0 {
        Seq::empty()
    } else if r.rank@[i - 1] == c {
        reals(r, c, i - 1).push(LNode::Real(NodeId((i - 1) as u32)))
    } else {
        reals(r, c, i - 1)
    }
}

/// Whether forward edge `e` passes through column `c` without ending there.
pub open spec fn passes_through(g: &ViewGraph, r: &Ranked, e: int, c: int) -> bool {
    !r.back@[e] && lo_of(g, r, e) < c < hi_of(g, r, e)
}

/// The pass slots of the first `k` edges in column `c`, in edge order.
pub open spec fn pass_nodes(g: &ViewGraph, r: &Ranked, c: int, k: int) -> Seq<LNode>
    decreases k,
{
    if k <= 0 {
        Seq::empty()
    } else if passes_through(g, r, k - 1, c) {
        pass_nodes(g, r, c, k - 1).push(LNode::Pass(EdgeId((k - 1) as u32)))
    } else {
        pass_nodes(g, r, c, k - 1)
    }
}

/// Forward edges among the first `k` leaving node `v` (`out`) or arriving
/// at it.
pub open spec fn fwd_deg(g: &ViewGraph, r: &Ranked, v: int, k: int, out: bool) -> nat
    decreases k,
{
    if k <= 0 {
        0
    } else {
        let e = g.edges@[k - 1];
        let end = if out { e.from.0 } else { e.to.0 };
        fwd_deg(g, r, v, k - 1, out) + if !r.back@[k - 1] && end == v { 1nat } else { 0nat }
    }
}

/// The pass columns of forward edge `e`.
pub open spec fn pass_cols(g: &ViewGraph, r: &Ranked, e: int) -> Seq<usize> {
    Seq::new((hi_of(g, r, e) - lo_of(g, r, e) - 1) as nat, |j: int| (lo_of(g, r, e) + 1 + j) as usize)
}

/// The forward edges among the first `k` spanning more than one column,
/// with their pass columns.
pub open spec fn passes_spec(g: &ViewGraph, r: &Ranked, k: int) -> Seq<(EdgeId, Seq<usize>)>
    decreases k,
{
    if k <= 0 {
        Seq::empty()
    } else if !r.back@[k - 1] && hi_of(g, r, k - 1) - lo_of(g, r, k - 1) > 1 {
        passes_spec(g, r, k - 1).push((EdgeId((k - 1) as u32), pass_cols(g, r, k - 1)))
    } else {
        passes_spec(g, r, k - 1)
    }
}

/// The pass entries with their column lists as plain sequences.
pub open spec fn passes_view(p: Seq<(EdgeId, Vec<usize>)>) -> Seq<(EdgeId, Seq<usize>)> {
    p.map_values(|x: (EdgeId, Vec<usize>)| (x.0, x.1@))
}

impl Layered {
    /// Every column and segment names the graph's nodes and edges, and every
    /// segment joins a column to the next.
    pub open spec fn wf_for(&self, g: &ViewGraph) -> bool {
        &&& forall|c: int, j: int|
            0 <= c < self.columns@.len() && 0 <= j < self.columns@[c]@.len() ==> lnode_ok(
                g,
                #[trigger] self.columns@[c]@[j],
            )
        &&& forall|c: int|
            0 <= c < self.columns@.len() ==> (#[trigger] self.columns@[c])@.len() <= g.nodes@.len()
                + g.edges@.len()
        &&& self.segments@.len() <= MAX_SEGMENTS
        &&& forall|s: int|
            0 <= s < self.segments@.len() ==> {
                let x = #[trigger] self.segments@[s];
                &&& x.col + 1 < self.columns@.len()
                &&& x.edge.0 < g.edges@.len()
                &&& lnode_ok(g, x.from)
                &&& lnode_ok(g, x.to)
            }
        &&& self.out_deg@.len() == g.nodes@.len()
        &&& self.in_deg@.len() == g.nodes@.len()
        &&& forall|p: int, j: int|
            0 <= p < self.passes@.len() && 0 <= j < self.passes@[p].1@.len() ==> #[trigger] self.passes@[p].1@[j]
                < self.columns@.len()
        &&& forall|p: int| 0 <= p < self.passes@.len() ==> (#[trigger] self.passes@[p]).0.0 < g.edges@.len()
        &&& forall|p: int, q: int|
            0 <= p < q < self.passes@.len() ==> (#[trigger] self.passes@[p]).0.0 < (#[trigger] self.passes@[q]).0.0
        &&& self.columns@.len() <= g.nodes@.len()
        &&& self.passes@.len() <= g.edges@.len()
    }
}

proof fn lemma_reals_ok(g: &ViewGraph, r: &Ranked, c: int, i: int)
    requires
        0 <= i <= g.nodes@.len(),
        g.nodes@.len() <= MAX_NODES,
    ensures
        forall|j: int| 0 <= j < reals(r, c, i).len() ==> lnode_ok(g, #[trigger] reals(r, c, i)[j]),
        reals(r, c, i).len() <= i,
    decreases i,
{
    if i > 0 {
        lemma_reals_ok(g, r, c, i - 1);
    }
}

proof fn lemma_pass_nodes_ok(g: &ViewGraph, r: &Ranked, c: int, k: int)
    requires
        0 <= k <= g.edges@.len(),
        g.edges@.len() <= MAX_EDGES,
    ensures
        forall|j: int| 0 <= j < pass_nodes(g, r, c, k).len() ==> lnode_ok(g, #[trigger] pass_nodes(g, r, c, k)[j]),
        pass_nodes(g, r, c, k).len() <= k,
    decreases k,
{
    if k > 0 {
        lemma_pass_nodes_ok(g, r, c, k - 1);
    }
}

/// The layered graph: each node in the column of its rank, then a pass slot
/// per column a forward edge crosses without ending there; one segment per
/// column hop of each forward edge.
pub fn layer(g: &ViewGraph, r: &Ranked) -> (l: Layered)
    requires
        small(g),
        r.wf_for(g),
    ensures
        l.wf_for(g),
        l.columns@.len() > 0 <==> g.nodes@.len() > 0,
        forall|c: int|
            0 <= c < r.rank@.len() ==> #[trigger] r.rank@[c] < l.columns@.len(),
        g.nodes@.len() > 0 ==> exists|v: int| 0 <= v < r.rank@.len() && #[trigger] r.rank@[v] + 1 == l.columns@.len(),
        forall|c: int|
            0 <= c < l.columns@.len() ==> (#[trigger] l.columns@[c])@ == reals(r, c, g.nodes@.len() as int)
                + pass_nodes(g, r, c, g.edges@.len() as int),
        l.segments@ == segs_spec(g, r, g.edges@.len() as int),
        passes_view(l.passes@) == passes_spec(g, r, g.edges@.len() as int),
        forall|v: int|
            0 <= v < g.nodes@.len() ==> #[trigger] l.out_deg@[v] == fwd_deg(g, r, v, g.edges@.len() as int, true),
        forall|v: int|
            0 <= v < g.nodes@.len() ==> #[trigger] l.in_deg@[v] == fwd_deg(g, r, v, g.edges@.len() as int, false),
{
    let n = g.nodes.len();
    let m = g.edges.len();
    let cols = r.columns();
    proof {
        if n > 0 {
            let v = choose|v: int| 0 <= v < r.rank@.len() && r.rank@[v] + 1 == cols;
            assert(r.rank@[v] < n);
        }
    }
    let mut columns: Vec<Vec<LNode>> = Vec::new();
    let mut c: usize = 0;
    while c < cols
        invariant
            c <= cols,
            columns@.len() == c,
            forall|x: int| 0 <= x < c ==> (#[trigger] columns@[x])@ == Seq::<LNode>::empty(),
        decreases cols - c,
    {
        columns.push(Vec::new());
        c += 1;
    }
    proof {
        assert forall|x: int| 0 <= x < cols implies (#[trigger] columns@[x])@ == reals(r, x, 0) by {}
    }
    let mut i: usize = 0;
    while i < n
        invariant
            i <= n,
            n == g.nodes@.len(),
            n <= MAX_NODES,
            r.wf_for(g),
            columns@.len() == cols,
            forall|v: int| 0 <= v < n ==> #[trigger] r.rank@[v] < cols,
            forall|x: int| 0 <= x < cols ==> (#[trigger] columns@[x])@ == reals(r, x, i as int),
            forall|x: int| 0 <= x < cols ==> (#[trigger] columns@[x])@.len() <= i,
        decreases n - i,
    {
        let rk = r.rank[i];
        columns[rk].push(LNode::Real(NodeId(i as u32)));
        proof {
            assert forall|x: int| 0 <= x < cols implies (#[trigger] columns@[x])@ == reals(r, x, i + 1) by {}
        }
        i += 1;
    }
    let mut segments: Vec<Segment> = Vec::new();
    let mut passes: Vec<(EdgeId, Vec<usize>)> = Vec::new();
    let mut out_deg: Vec<usize> = Vec::new();
    let mut in_deg: Vec<usize> = Vec::new();
    let mut v: usize = 0;
    while v < n
        invariant
            v <= n,
            out_deg@.len() == v,
            in_deg@.len() == v,
            forall|x: int| 0 <= x < v ==> #[trigger] out_deg@[x] == 0,
            forall|x: int| 0 <= x < v ==> #[trigger] in_deg@[x] == 0,
        decreases n - v,
    {
        out_deg.push(0);
        in_deg.push(0);
        v += 1;
    }
    proof {
        assert(passes_view(passes@) =~= passes_spec(g, r, 0));
        assert forall|v: int| 0 <= v < n implies #[trigger] out_deg@[v] == fwd_deg(g, r, v, 0, true) by {}
        assert forall|v: int| 0 <= v < n implies #[trigger] in_deg@[v] == fwd_deg(g, r, v, 0, false) by {}
    }
    let mut k: usize = 0;
    while k < m
        invariant
            k <= m,
            n == g.nodes@.len(),
            m == g.edges@.len(),
            small(g),
            r.wf_for(g),
            columns@.len() == cols,
            forall|v: int| 0 <= v < n ==> #[trigger] r.rank@[v] < cols,
            forall|x: int|
                0 <= x < cols ==> (#[trigger] columns@[x])@ == reals(r, x, n as int) + pass_nodes(
                    g,
                    r,
                    x,
                    k as int,
                ),
            forall|x: int| 0 <= x < cols ==> (#[trigger] columns@[x])@.len() <= n + k,
            segments@ == segs_spec(g, r, k as int),
            segments@.len() <= k * MAX_NODES,
            passes_view(passes@) == passes_spec(g, r, k as int),
            forall|p: int, j: int|
                0 <= p < passes@.len() && 0 <= j < passes@[p].1@.len() ==> #[trigger] passes@[p].1@[j] < cols,
            forall|p: int| 0 <= p < passes@.len() ==> (#[trigger] passes@[p]).0.0 < k,
            passes@.len() <= k,
            forall|p: int, q: int| 0 <= p < q < passes@.len() ==> (#[trigger] passes@[p]).0.0 < (#[trigger] passes@[q]).0.0,
            out_deg@.len() == n,
            in_deg@.len() == n,
            forall|v: int| 0 <= v < n ==> #[trigger] out_deg@[v] == fwd_deg(g, r, v, k as int, true),
            forall|v: int| 0 <= v < n ==> #[trigger] in_deg@[v] == fwd_deg(g, r, v, k as int, false),
            forall|v: int| 0 <= v < n ==> #[trigger] out_deg@[v] <= k,
            forall|v: int| 0 <= v < n ==> #[trigger] in_deg@[v] <= k,
            forall|s: int|
                0 <= s < segments@.len() ==> {
                    let x = #[trigger] segments@[s];
                    &&& x.col + 1 < cols
                    &&& x.edge.0 < m
                    &&& lnode_ok(g, x.from)
                    &&& lnode_ok(g, x.to)
                },
        decreases m - k,
    {
        let e = &g.edges[k];
        let f = e.from.0 as usize;
        let t = e.to.0 as usize;
        if !r.back[k] {
            let a = r.rank[f];
            let b = r.rank[t];
            let id = EdgeId(k as u32);
            proof {
                assert(a < b);
            }
            let ghost before = columns@;
            let ghost segs0 = segments@;
            let mut prev = LNode::Real(e.from);
            let mut through: Vec<usize> = Vec::new();
            let mut c = a;
            while c < b
                invariant
                    a <= c <= b,
                    a == lo_of(g, r, k as int),
                    b == hi_of(g, r, k as int),
                    b < cols,
                    k < m,
                    n == g.nodes@.len(),
                    m == g.edges@.len(),
                    small(g),
                    id == EdgeId(k as u32),
                    e == g.edges@[k as int],
                    columns@.len() == cols,
                    forall|x: int|
                        0 <= x < cols ==> (#[trigger] columns@[x])@ == before[x]@ + if a < x <= c && x
                            < b {
                            seq![LNode::Pass(id)]
                        } else {
                            Seq::<LNode>::empty()
                        },
                    forall|x: int| 0 <= x < cols ==> (#[trigger] before[x])@.len() <= n + k,
                    segments@ == segs0 + hops(g, r, k as int).take(c - a),
                    c < b ==> prev == if c == a { LNode::Real(e.from) } else { LNode::Pass(id) },
                    through@ == pass_cols(g, r, k as int).take(if c < b { c - a } else { b - a - 1 }),
                    forall|s: int|
                        0 <= s < segments@.len() ==> {
                            let x = #[trigger] segments@[s];
                            &&& x.col + 1 < cols
                            &&& x.edge.0 < m
                            &&& lnode_ok(g, x.from)
                            &&& lnode_ok(g, x.to)
                        },
                decreases b - c,
            {
                let next = if c + 1 == b {
                    LNode::Real(e.to)
                } else {
                    LNode::Pass(id)
                };
                if c + 1 < b {
                    columns[c + 1].push(next);
                    through.push(c + 1);
                }
                segments.push(Segment { edge: id, col: c, from: prev, to: next });
                proof {
                    assert(hop(g, r, k as int, c as int) == Segment { edge: id, col: c, from: prev, to: next });
                    assert(segments@ =~= segs0 + hops(g, r, k as int).take(c + 1 - a));
                    assert(through@ =~= pass_cols(g, r, k as int).take(if c + 1 < b { c + 1 - a } else { b - a - 1 }));
                    assert forall|x: int| 0 <= x < cols implies (#[trigger] columns@[x])@ == before[x]@ + if a < x <= c + 1 && x < b {
                        seq![LNode::Pass(id)]
                    } else {
                        Seq::<LNode>::empty()
                    } by {}
                }
                prev = next;
                c += 1;
            }
            proof {
                assert(hops(g, r, k as int).take(b - a) =~= hops(g, r, k as int));
                assert(segments@ == segs_spec(g, r, k + 1));
                assert forall|x: int| 0 <= x < cols implies (#[trigger] columns@[x])@ == reals(r, x, n as int) + pass_nodes(g, r, x, k + 1) by {
                    if passes_through(g, r, k as int, x) {
                        assert(reals(r, x, n as int) + pass_nodes(g, r, x, k as int).push(LNode::Pass(id)) =~= before[x]@ + seq![LNode::Pass(id)]);
                    } else {
                        assert(before[x]@ + Seq::<LNode>::empty() =~= before[x]@);
                    }
                }
            }
            if b - a > 1 {
                proof {
                    assert(pass_cols(g, r, k as int).take(b - a - 1) =~= pass_cols(g, r, k as int));
                }
                let ghost p0 = passes@;
                passes.push((id, through));
                proof {
                    assert(passes_view(passes@) =~= passes_spec(g, r, k + 1));
                    assert forall|p: int, j: int| 0 <= p < passes@.len() && 0 <= j < passes@[p].1@.len() implies #[trigger] passes@[p].1@[j] < cols by {
                        if p < p0.len() {
                            assert(passes@[p] == p0[p]);
                            assert(p0[p].1@[j] < cols);
                        } else {
                            assert(passes@[p].0 == id);
                            assert(passes@[p].1@ == pass_cols(g, r, k as int));
                            assert(pass_cols(g, r, k as int)[j] == (a + 1 + j) as usize);
                            assert(a + 1 + j < b);
                        }
                    }
                }
            } else {
                proof {
                    assert(passes_view(passes@) =~= passes_spec(g, r, k + 1));
                }
            }
            out_deg.set(f, out_deg[f] + 1);
            in_deg.set(t, in_deg[t] + 1);
            proof {
                assert forall|v: int| 0 <= v < n implies #[trigger] out_deg@[v] == fwd_deg(g, r, v, k + 1, true) by {}
        assert forall|v: int| 0 <= v < n implies #[trigger] in_deg@[v] == fwd_deg(g, r, v, k + 1, false) by {}
                assert(segments@.len() <= (k + 1) * MAX_NODES) by (nonlinear_arith)
                    requires segments@.len() <= segs0.len() + (b - a), segs0.len() <= k * MAX_NODES, b - a <= MAX_NODES;
            }
        } else {
            proof {
                assert forall|v: int| 0 <= v < n implies #[trigger] out_deg@[v] == fwd_deg(g, r, v, k + 1, true) by {}
        assert forall|v: int| 0 <= v < n implies #[trigger] in_deg@[v] == fwd_deg(g, r, v, k + 1, false) by {}
                assert(segments@.len() <= (k + 1) * MAX_NODES) by (nonlinear_arith)
                    requires segments@.len() <= k * MAX_NODES;
                assert forall|x: int| 0 <= x < cols implies (#[trigger] columns@[x])@ == reals(r, x, n as int) + pass_nodes(g, r, x, k + 1) by {}
                assert(passes_view(passes@) =~= passes_spec(g, r, k + 1));
            }
        }
        k += 1;
    }
    proof {
        assert forall|c: int, j: int| 0 <= c < columns@.len() && 0 <= j < columns@[c]@.len() implies lnode_ok(g, #[trigger] columns@[c]@[j]) by {
            lemma_reals_ok(g, r, c, n as int);
            lemma_pass_nodes_ok(g, r, c, m as int);
            let a = reals(r, c, n as int);
            let b = pass_nodes(g, r, c, m as int);
            if j < a.len() {
                assert(columns@[c]@[j] == a[j]);
            } else {
                assert(columns@[c]@[j] == b[j - a.len()]);
            }
        }
        assert(segments@.len() <= MAX_SEGMENTS) by (nonlinear_arith)
            requires segments@.len() <= m * MAX_NODES, m <= MAX_EDGES;
    }
    Layered { columns, segments, passes, out_deg, in_deg }
}

// ---- column order ---------------------------------------------------------------------

/// The first index of `x` in `s`.
pub open spec fn pos_of(s: Seq<LNode>, x: LNode) -> Option<int>
    decreases s.len(),
{
    if s.len() == 0 {
        None
    } else {
        match pos_of(s.drop_last(), x) {
            Some(i) => Some(i),
            None => if s.last() == x { Some(s.len() - 1) } else { None },
        }
    }
}

/// Sum and count of the positions, in column `other`, of the far ends of
/// the first `k` segments that reach `n` from that side.
pub open spec fn neigh(segs: Seq<Segment>, far: Seq<LNode>, col: int, down: bool, n: LNode, k: int) -> (int, int)
    decreases k,
{
    if k <= 0 {
        (0, 0)
    } else {
        let (sum, count) = neigh(segs, far, col, down, n, k - 1);
        let s = segs[k - 1];
        let hit = if down { s.col == col - 1 && s.to == n } else { s.col == col && s.from == n };
        let end = if down { s.from } else { s.to };
        if hit {
            match pos_of(far, end) {
                Some(p) => (sum + p, count + 1),
                None => (sum, count),
            }
        } else {
            (sum, count)
        }
    }
}

/// `x` as an `i32`, saturating.
pub open spec fn sat32(x: int) -> int {
    if x > i32::MAX { i32::MAX as int } else { x }
}

/// A column entry with its sort key: barycenter as a fraction, whether it
/// is a pass slot, its index.
pub struct Keyed {
    pub num: i64,
    pub den: i64,
    pub pass: bool,
    pub idx: usize,
    pub node: LNode,
}

/// The sort key of entry `idx` of column `col`: the mean position of its
/// neighbours in the previous column (`down`) or the next one; its own
/// index when it has none.
pub open spec fn keyed_spec(l: &Layered, col: int, down: bool, idx: int) -> Keyed {
    let n = l.columns@[col]@[idx];
    let far = if down { l.columns@[col - 1]@ } else { l.columns@[col + 1]@ };
    let (sum, count) = neigh(l.segments@, far, col, down, n, l.segments@.len() as int);
    Keyed {
        num: if count == 0 { idx as i64 } else { sat32(sum) as i64 },
        den: if count == 0 { 1 } else { sat32(count) as i64 },
        pass: n is Pass,
        idx: idx as usize,
        node: n,
    }
}

pub open spec fn keys_spec(l: &Layered, col: int, down: bool) -> Seq<Keyed> {
    Seq::new(l.columns@[col]@.len(), |i: int| keyed_spec(l, col, down, i))
}

/// `a` sorts before `b`: smaller barycenter, then a card before a pass
/// slot, then the earlier index.
pub open spec fn before(a: Keyed, b: Keyed) -> bool {
    let x = a.num * b.den;
    let y = b.num * a.den;
    x < y || (x == y && ((!a.pass && b.pass) || (a.pass == b.pass && a.idx < b.idx)))
}

pub open spec fn sorted_keys(s: Seq<Keyed>) -> bool {
    forall|i: int, j: int| 0 <= i < j < s.len() ==> before(#[trigger] s[i], #[trigger] s[j])
}

fn before_exec(a: &Keyed, b: &Keyed) -> (r: bool)
    requires
        0 <= a.num <= i32::MAX,
        0 <= b.num <= i32::MAX,
        1 <= a.den <= i32::MAX,
        1 <= b.den <= i32::MAX,
    ensures
        r == before(*a, *b),
{
    assert(0 <= a.num * b.den <= i32::MAX * i32::MAX) by (nonlinear_arith)
        requires 0 <= a.num <= i32::MAX, 1 <= b.den <= i32::MAX;
    assert(0 <= b.num * a.den <= i32::MAX * i32::MAX) by (nonlinear_arith)
        requires 0 <= b.num <= i32::MAX, 1 <= a.den <= i32::MAX;
    let x = a.num * b.den;
    let y = b.num * a.den;
    x < y || (x == y && ((!a.pass && b.pass) || (a.pass == b.pass && a.idx < b.idx)))
}

pub open spec fn key_ok(k: Keyed) -> bool {
    &&& 0 <= k.num <= i32::MAX
    &&& 1 <= k.den <= i32::MAX
}

/// Where `x` first sits in `s`.
fn position(s: &Vec<LNode>, x: LNode) -> (p: Option<usize>)
    ensures
        match p {
            Some(i) => pos_of(s@, x) == Some(i as int),
            None => pos_of(s@, x) is None,
        },
{
    let mut i: usize = 0;
    while i < s.len()
        invariant
            i <= s@.len(),
            pos_of(s@.take(i as int), x) is None,
        decreases s.len() - i,
    {
        proof {
            assert(s@.take(i + 1).drop_last() =~= s@.take(i as int));
        }
        if s[i] == x {
            proof {
                lemma_pos_of_prefix(s@, x, i + 1);
            }
            return Some(i);
        }
        i += 1;
    }
    proof {
        assert(s@.take(i as int) =~= s@);
    }
    None
}

proof fn lemma_pos_of_prefix(s: Seq<LNode>, x: LNode, j: int)
    requires
        0 <= j <= s.len(),
    ensures
        pos_of(s.take(j), x) matches Some(p) ==> pos_of(s, x) == Some(p),
    decreases s.len() - j,
{
    if j < s.len() {
        lemma_pos_of_prefix(s, x, j + 1);
        assert(s.take(j + 1).drop_last() =~= s.take(j));
    } else {
        assert(s.take(j) =~= s);
    }
}

proof fn lemma_pos_of_bound(s: Seq<LNode>, x: LNode)
    ensures
        pos_of(s, x) matches Some(p) ==> 0 <= p < s.len(),
    decreases s.len(),
{
    if s.len() > 0 {
        lemma_pos_of_bound(s.drop_last(), x);
    }
}

/// The sort key of entry `idx` of column `col`.
fn key_of(l: &Layered, col: usize, down: bool, idx: usize) -> (k: Keyed)
    requires
        0 <= col < l.columns@.len(),
        down ==> col >= 1,
        !down ==> col + 1 < l.columns@.len(),
        idx < l.columns@[col as int]@.len(),
        l.columns@.len() <= MAX_NODES,
        l.segments@.len() <= MAX_SEGMENTS,
        forall|c: int| 0 <= c < l.columns@.len() ==> (#[trigger] l.columns@[c])@.len() <= MAX_NODES + MAX_EDGES,
    ensures
        k == keyed_spec(l, col as int, down, idx as int),
        key_ok(k),
{
    let n = l.columns[col][idx];
    let other = if down { col - 1 } else { col + 1 };
    let far = &l.columns[other];
    let mut sum: u64 = 0;
    let mut count: u64 = 0;
    let mut k: usize = 0;
    while k < l.segments.len()
        invariant
            k <= l.segments@.len(),
            l.segments@.len() <= MAX_SEGMENTS,
            far@.len() <= MAX_NODES + MAX_EDGES,
            far@ == (if down { l.columns@[col - 1]@ } else { l.columns@[col + 1]@ }),
            n == l.columns@[col as int]@[idx as int],
            other == (if down { col - 1 } else { col + 1 }),
            (sum as int, count as int) == neigh(l.segments@, far@, col as int, down, n, k as int),
            count <= k,
            sum <= k * (MAX_NODES + MAX_EDGES),
        decreases l.segments.len() - k,
    {
        let s = l.segments[k];
        let hit = if down { s.col == other && s.to == n } else { s.col == col && s.from == n };
        if hit {
            let end = if down { s.from } else { s.to };
            match position(far, end) {
                Some(p) => {
                    proof {
                        lemma_pos_of_bound(far@, end);
                        assert(sum + p <= (k + 1) * (MAX_NODES + MAX_EDGES)) by (nonlinear_arith)
                            requires sum <= k * (MAX_NODES + MAX_EDGES), p < MAX_NODES + MAX_EDGES;
                        assert((k + 1) * (MAX_NODES + MAX_EDGES) <= MAX_SEGMENTS * (MAX_NODES + MAX_EDGES)) by (nonlinear_arith)
                            requires k < MAX_SEGMENTS;
                    }
                    sum = sum + p as u64;
                    count = count + 1;
                },
                None => {},
            }
        }
        proof {
            assert(sum <= (k + 1) * (MAX_NODES + MAX_EDGES)) by (nonlinear_arith)
                requires sum <= k * (MAX_NODES + MAX_EDGES) + (MAX_NODES + MAX_EDGES);
        }
        k += 1;
    }
    let pass = match n {
        LNode::Pass(_) => true,
        LNode::Real(_) => false,
    };
    if count == 0 {
        Keyed { num: idx as i64, den: 1, pass, idx, node: n }
    } else {
        let num: i64 = if sum > i32::MAX as u64 { i32::MAX as i64 } else { sum as i64 };
        let den: i64 = if count > i32::MAX as u64 { i32::MAX as i64 } else { count as i64 };
        Keyed { num, den, pass, idx, node: n }
    }
}

proof fn lemma_frac(an: int, ad: int, bn: int, bd: int, cn: int, cd: int)
    requires
        ad > 0,
        bd > 0,
        cd > 0,
        an * bd <= bn * ad,
        bn * cd <= cn * bd,
    ensures
        an * cd <= cn * ad,
        (an * bd < bn * ad || bn * cd < cn * bd) ==> an * cd < cn * ad,
{
    assert(an * bd * cd <= bn * ad * cd) by (nonlinear_arith)
        requires an * bd <= bn * ad, cd > 0;
    assert(bn * cd * ad <= cn * bd * ad) by (nonlinear_arith)
        requires bn * cd <= cn * bd, ad > 0;
    assert(an * cd * bd <= cn * ad * bd) by (nonlinear_arith)
        requires an * bd * cd <= bn * ad * cd, bn * cd * ad <= cn * bd * ad;
    assert(an * cd <= cn * ad) by (nonlinear_arith)
        requires an * cd * bd <= cn * ad * bd, bd > 0;
    if an * bd < bn * ad {
        assert(an * bd * cd < bn * ad * cd) by (nonlinear_arith)
            requires an * bd < bn * ad, cd > 0;
        assert(an * cd * bd < cn * ad * bd) by (nonlinear_arith)
            requires an * bd * cd < bn * ad * cd, bn * cd * ad <= cn * bd * ad;
        assert(an * cd < cn * ad) by (nonlinear_arith)
            requires an * cd * bd < cn * ad * bd, bd > 0;
    }
    if bn * cd < cn * bd {
        assert(bn * cd * ad < cn * bd * ad) by (nonlinear_arith)
            requires bn * cd < cn * bd, ad > 0;
        assert(an * cd * bd < cn * ad * bd) by (nonlinear_arith)
            requires an * bd * cd <= bn * ad * cd, bn * cd * ad < cn * bd * ad;
        assert(an * cd < cn * ad) by (nonlinear_arith)
            requires an * cd * bd < cn * ad * bd, bd > 0;
    }
}

proof fn lemma_before_trans(a: Keyed, b: Keyed, c: Keyed)
    requires
        key_ok(a),
        key_ok(b),
        key_ok(c),
        before(a, b),
        before(b, c),
    ensures
        before(a, c),
{
    lemma_frac(a.num as int, a.den as int, b.num as int, b.den as int, c.num as int, c.den as int);
}

proof fn lemma_before_total(a: Keyed, b: Keyed)
    requires
        a.idx != b.idx,
    ensures
        before(a, b) || before(b, a),
{
    assert(a.num * b.den == b.num * a.den || a.num * b.den < b.num * a.den || b.num * a.den < a.num * b.den);
}

/// Sort column `col` by the mean position of its neighbours in the previous
/// column (`down`) or the next. Nodes without neighbours keep their index;
/// a pass slot ties after a card.
/// `after` is `before` with column `col` put in barycenter order by its
/// previous column (`down`) or its next one, and nothing else changed.
pub open spec fn swept_column(before: &Layered, after: &Layered, col: int, down: bool) -> bool {
    &&& after.segments == before.segments
    &&& after.passes == before.passes
    &&& after.out_deg == before.out_deg
    &&& after.in_deg == before.in_deg
    &&& after.columns@.len() == before.columns@.len()
    &&& forall|c: int| 0 <= c < before.columns@.len() && c != col ==> #[trigger] after.columns@[c] == before.columns@[c]
    &&& exists|ks: Seq<Keyed>|
        ks.to_multiset() == keys_spec(before, col, down).to_multiset() && sorted_keys(ks) && after.columns@[col]@
            == ks.map_values(|k: Keyed| k.node)
}

pub fn sweep_column(l: &mut Layered, col: usize, down: bool)
    requires
        0 <= col < old(l).columns@.len(),
        down ==> col >= 1,
        !down ==> col + 1 < old(l).columns@.len(),
        old(l).columns@.len() <= MAX_NODES,
        old(l).segments@.len() <= MAX_SEGMENTS,
        forall|c: int| 0 <= c < old(l).columns@.len() ==> (#[trigger] old(l).columns@[c])@.len() <= MAX_NODES + MAX_EDGES,
    ensures
        final(l).segments == old(l).segments,
        final(l).passes == old(l).passes,
        final(l).out_deg == old(l).out_deg,
        final(l).in_deg == old(l).in_deg,
        final(l).columns@.len() == old(l).columns@.len(),
        forall|c: int| 0 <= c < old(l).columns@.len() && c != col ==> #[trigger] final(l).columns@[c] == old(l).columns@[c],
        exists|ks: Seq<Keyed>|
            ks.to_multiset() == keys_spec(&*old(l), col as int, down).to_multiset() && sorted_keys(ks)
                && final(l).columns@[col as int]@ == ks.map_values(|k: Keyed| k.node),
        final(l).columns@[col as int]@.to_multiset() == old(l).columns@[col as int]@.to_multiset(),
        final(l).columns@[col as int]@.len() == old(l).columns@[col as int]@.len(),
        swept_column(&*old(l), &*final(l), col as int, down),
{
    let len = l.columns[col].len();
    let ghost ks = keys_spec(&*l, col as int, down);
    let mut keyed: Vec<Keyed> = Vec::new();
    let mut idx: usize = 0;
    while idx < len
        invariant
            idx <= len,
            len == l.columns@[col as int]@.len(),
            0 <= col < l.columns@.len(),
            down ==> col >= 1,
            !down ==> col + 1 < l.columns@.len(),
            l.columns@.len() <= MAX_NODES,
            l.segments@.len() <= MAX_SEGMENTS,
            forall|c: int| 0 <= c < l.columns@.len() ==> (#[trigger] l.columns@[c])@.len() <= MAX_NODES + MAX_EDGES,
            ks == keys_spec(&*l, col as int, down),
            keyed@ == ks.take(idx as int),
            forall|i: int| 0 <= i < idx ==> key_ok(#[trigger] keyed@[i]),
        decreases len - idx,
    {
        let k = key_of(l, col, down, idx);
        keyed.push(k);
        proof {
            assert(keyed@ =~= ks.take(idx + 1));
        }
        idx += 1;
    }
    proof {
        assert(ks.take(len as int) =~= ks);
    }
    // Insertion sort: the keys are distinct, so the order is total.
    let mut sorted: Vec<Keyed> = Vec::new();
    proof {
        assert(sorted@ =~= ks.take(0));
        assert(sorted@.map_values(|k: Keyed| k.node) =~= ks.take(0).map_values(|k: Keyed| k.node));
    }
    let mut j: usize = 0;
    while j < len
        invariant
            j <= len,
            keyed@ == ks,
            ks.len() == len,
            forall|i: int| 0 <= i < len ==> key_ok(#[trigger] ks[i]),
            sorted@.to_multiset() == ks.take(j as int).to_multiset(),
            sorted@.map_values(|k: Keyed| k.node).to_multiset() == ks.take(j as int).map_values(|k: Keyed| k.node).to_multiset(),
            sorted_keys(sorted@),
            forall|i: int| 0 <= i < sorted@.len() ==> key_ok(#[trigger] sorted@[i]),
            forall|i: int| 0 <= i < sorted@.len() ==> #[trigger] sorted@[i].idx < j,
            forall|i: int| 0 <= i < len ==> #[trigger] ks[i].idx == i,
            sorted@.len() == j,
        decreases len - j,
    {
        let x = &keyed[j];
        let mut pos: usize = sorted.len();
        while pos > 0 && before_exec(x, &sorted[pos - 1])
            invariant
                pos <= sorted@.len(),
                key_ok(*x),
                forall|i: int| 0 <= i < sorted@.len() ==> key_ok(#[trigger] sorted@[i]),
                forall|i: int| pos <= i < sorted@.len() ==> before(*x, #[trigger] sorted@[i]),
            decreases pos,
        {
            pos -= 1;
        }
        let item = Keyed { num: x.num, den: x.den, pass: x.pass, idx: x.idx, node: x.node };
        proof {
            assert(item == ks[j as int]);
            assert(ks.take(j + 1) =~= ks.take(j as int).push(item));
            vstd::seq_lib::to_multiset_insert(sorted@, pos as int, item);
            vstd::seq_lib::to_multiset_build(ks.take(j as int), item);
            assert(sorted@.insert(pos as int, item).map_values(|k: Keyed| k.node) =~= sorted@.map_values(|k: Keyed| k.node).insert(pos as int, item.node));
            assert(ks.take(j + 1).map_values(|k: Keyed| k.node) =~= ks.take(j as int).map_values(|k: Keyed| k.node).push(item.node));
            vstd::seq_lib::to_multiset_insert(sorted@.map_values(|k: Keyed| k.node), pos as int, item.node);
            vstd::seq_lib::to_multiset_build(ks.take(j as int).map_values(|k: Keyed| k.node), item.node);
            if pos > 0 {
                let p = sorted@[pos - 1];
                assert(p.idx < j);
                lemma_before_total(item, p);
                assert(before(p, item));
                assert forall|i: int| 0 <= i < pos implies before(#[trigger] sorted@[i], item) by {
                    if i < pos - 1 {
                        lemma_before_trans(sorted@[i], p, item);
                    }
                }
            }
        }
        let ghost old_sorted = sorted@;
        sorted.insert(pos, item);
        proof {
            assert forall|a: int, b: int| 0 <= a < b < sorted@.len() implies before(#[trigger] sorted@[a], #[trigger] sorted@[b]) by {
                if b < pos {
                    assert(sorted@[a] == old_sorted[a] && sorted@[b] == old_sorted[b]);
                } else if b == pos {
                    assert(sorted@[a] == old_sorted[a]);
                } else if a == pos {
                    assert(sorted@[b] == old_sorted[b - 1]);
                } else if a < pos {
                    assert(sorted@[a] == old_sorted[a] && sorted@[b] == old_sorted[b - 1]);
                } else {
                    assert(sorted@[a] == old_sorted[a - 1] && sorted@[b] == old_sorted[b - 1]);
                }
            }
            assert forall|i: int| 0 <= i < sorted@.len() implies #[trigger] sorted@[i].idx < j + 1 by {
                if i < pos {
                    assert(sorted@[i] == old_sorted[i]);
                } else if i > pos {
                    assert(sorted@[i] == old_sorted[i - 1]);
                }
            }
            assert forall|i: int| 0 <= i < sorted@.len() implies key_ok(#[trigger] sorted@[i]) by {
                if i < pos {
                    assert(sorted@[i] == old_sorted[i]);
                } else if i > pos {
                    assert(sorted@[i] == old_sorted[i - 1]);
                }
            }
        }
        j += 1;
    }
    proof {
        assert(ks.take(len as int) =~= ks);
    }
    let mut out: Vec<LNode> = Vec::new();
    let mut i: usize = 0;
    while i < sorted.len()
        invariant
            i <= sorted@.len(),
            out@ == sorted@.take(i as int).map_values(|k: Keyed| k.node),
        decreases sorted.len() - i,
    {
        out.push(sorted[i].node);
        proof {
            assert(out@ =~= sorted@.take(i + 1).map_values(|k: Keyed| k.node));
        }
        i += 1;
    }
    proof {
        assert(sorted@.take(sorted@.len() as int) =~= sorted@);
        assert(ks.map_values(|k: Keyed| k.node) =~= l.columns@[col as int]@);
        vstd::seq_lib::to_multiset_len(out@);
        vstd::seq_lib::to_multiset_len(l.columns@[col as int]@);
    }
    l.columns.set(col, out);
}

/// The cards of one column, in order.
pub open spec fn cards_of(col: Seq<LNode>) -> Seq<NodeId>
    decreases col.len(),
{
    if col.len() == 0 {
        Seq::empty()
    } else {
        match col.last() {
            LNode::Real(id) => cards_of(col.drop_last()).push(id),
            LNode::Pass(_) => cards_of(col.drop_last()),
        }
    }
}

/// The cards of every column, in order.
pub open spec fn cards_spec(columns: Seq<Vec<LNode>>) -> Seq<Seq<NodeId>> {
    columns.map_values(|c: Vec<LNode>| cards_of(c@))
}

pub open spec fn cards_view(v: Seq<Vec<NodeId>>) -> Seq<Seq<NodeId>> {
    v.map_values(|c: Vec<NodeId>| c@)
}

pub open spec fn cols_view(v: Seq<Vec<LNode>>) -> Seq<Seq<LNode>> {
    v.map_values(|c: Vec<LNode>| c@)
}

fn cards_in(col: &Vec<LNode>) -> (out: Vec<NodeId>)
    ensures
        out@ == cards_of(col@),
{
    let mut out: Vec<NodeId> = Vec::new();
    let mut i: usize = 0;
    while i < col.len()
        invariant
            i <= col@.len(),
            out@ == cards_of(col@.take(i as int)),
        decreases col.len() - i,
    {
        proof {
            assert(col@.take(i + 1).drop_last() =~= col@.take(i as int));
        }
        match col[i] {
            LNode::Real(id) => out.push(id),
            LNode::Pass(_) => {},
        }
        i += 1;
    }
    proof {
        assert(col@.take(i as int) =~= col@);
    }
    out
}

/// The cards of every column, in order: what the geometry depends on. Pass
/// slots take their rows from the edge, wherever they sit in the column.
pub fn cards(columns: &Vec<Vec<LNode>>) -> (out: Vec<Vec<NodeId>>)
    ensures
        cards_view(out@) == cards_spec(columns@),
{
    let mut out: Vec<Vec<NodeId>> = Vec::new();
    let mut c: usize = 0;
    while c < columns.len()
        invariant
            c <= columns@.len(),
            cards_view(out@) == cards_spec(columns@).take(c as int),
        decreases columns.len() - c,
    {
        let col = cards_in(&columns[c]);
        let ghost o = out@;
        out.push(col);
        proof {
            assert(cards_spec(columns@)[c as int] == cards_of(columns@[c as int]@));
            assert(cards_view(out@) =~= cards_view(o).push(col@));
            assert(cards_spec(columns@).take(c + 1) =~= cards_spec(columns@).take(c as int).push(cards_of(columns@[c as int]@)));
            assert(cards_view(out@) =~= cards_spec(columns@).take(c + 1));
        }
        c += 1;
    }
    proof {
        assert(cards_spec(columns@).take(c as int) =~= cards_spec(columns@));
    }
    out
}

/// A copy of the columns.
pub fn copy_columns(columns: &Vec<Vec<LNode>>) -> (out: Vec<Vec<LNode>>)
    ensures
        cols_view(out@) == cols_view(columns@),
        out@.len() == columns@.len(),
        forall|c: int| 0 <= c < columns@.len() ==> (#[trigger] out@[c])@ == columns@[c]@,
{
    let mut out: Vec<Vec<LNode>> = Vec::new();
    let mut c: usize = 0;
    while c < columns.len()
        invariant
            c <= columns@.len(),
            out@.len() == c,
            forall|x: int| 0 <= x < c ==> (#[trigger] out@[x])@ == columns@[x]@,
        decreases columns.len() - c,
    {
        let src = &columns[c];
        let mut col: Vec<LNode> = Vec::new();
        let mut i: usize = 0;
        while i < src.len()
            invariant
                i <= src@.len(),
                col@ == src@.take(i as int),
            decreases src.len() - i,
        {
            col.push(src[i]);
            proof {
                assert(col@ =~= src@.take(i + 1));
            }
            i += 1;
        }
        proof {
            assert(src@.take(i as int) =~= src@);
        }
        out.push(col);
        c += 1;
    }
    proof {
        assert(cols_view(out@) =~= cols_view(columns@));
    }
    out
}

fn same_ids(a: &Vec<NodeId>, b: &Vec<NodeId>) -> (r: bool)
    ensures
        r == (a@ == b@),
{
    if a.len() != b.len() {
        return false;
    }
    let mut i: usize = 0;
    while i < a.len()
        invariant
            i <= a@.len(),
            a@.len() == b@.len(),
            a@.take(i as int) == b@.take(i as int),
        decreases a.len() - i,
    {
        if a[i] != b[i] {
            assert(a@[i as int] != b@[i as int]);
            return false;
        }
        proof {
            assert(a@.take(i + 1) =~= a@.take(i as int).push(a@[i as int]));
            assert(b@.take(i + 1) =~= b@.take(i as int).push(b@[i as int]));
        }
        i += 1;
    }
    proof {
        assert(a@.take(i as int) =~= a@);
        assert(b@.take(i as int) =~= b@);
    }
    true
}

fn same_cards(a: &Vec<Vec<NodeId>>, b: &Vec<Vec<NodeId>>) -> (r: bool)
    ensures
        r == (cards_view(a@) == cards_view(b@)),
{
    if a.len() != b.len() {
        assert(cards_view(a@).len() != cards_view(b@).len());
        return false;
    }
    let mut i: usize = 0;
    while i < a.len()
        invariant
            i <= a@.len(),
            a@.len() == b@.len(),
            cards_view(a@).take(i as int) == cards_view(b@).take(i as int),
        decreases a.len() - i,
    {
        if !same_ids(&a[i], &b[i]) {
            assert(cards_view(a@)[i as int] != cards_view(b@)[i as int]);
            return false;
        }
        proof {
            assert(cards_view(a@).take(i + 1) =~= cards_view(a@).take(i as int).push(a@[i as int]@));
            assert(cards_view(b@).take(i + 1) =~= cards_view(b@).take(i as int).push(b@[i as int]@));
        }
        i += 1;
    }
    proof {
        assert(cards_view(a@).take(i as int) =~= cards_view(a@));
        assert(cards_view(b@).take(i as int) =~= cards_view(b@));
    }
    true
}


/// Every column holds what it held before, in some order.
pub open spec fn permutes(a: Seq<Vec<LNode>>, b: Seq<Vec<LNode>>) -> bool {
    &&& a.len() == b.len()
    &&& forall|c: int| 0 <= c < a.len() ==> (#[trigger] a[c])@.to_multiset() == b[c]@.to_multiset()
    &&& forall|c: int| 0 <= c < a.len() ==> (#[trigger] a[c])@.len() == b[c]@.len()
}

/// What sweeping leaves alone, and what it keeps of the columns.
pub open spec fn swept(before: &Layered, after: &Layered) -> bool {
    &&& after.segments == before.segments
    &&& after.passes == before.passes
    &&& after.out_deg == before.out_deg
    &&& after.in_deg == before.in_deg
    &&& permutes(after.columns@, before.columns@)
}

/// Keep `columns` when its cards are in an order not seen before.
fn keep(columns: &Vec<Vec<LNode>>, seen: &mut Vec<Vec<Vec<NodeId>>>, out: &mut Vec<Vec<Vec<LNode>>>)
    ensures
        final(seen)@.len() == final(out)@.len() - old(out)@.len() + old(seen)@.len(),
        final(out)@.len() <= old(out)@.len() + 1,
        final(out)@.len() >= old(out)@.len(),
        forall|i: int| 0 <= i < old(out)@.len() ==> #[trigger] final(out)@[i] == old(out)@[i],
        forall|i: int| old(out)@.len() <= i < final(out)@.len() ==> cols_view((#[trigger] final(out)@[i])@) == cols_view(columns@),
        forall|i: int| 0 <= i < old(seen)@.len() ==> #[trigger] final(seen)@[i] == old(seen)@[i],
        final(seen)@.len() > old(seen)@.len() ==> cards_view(final(seen)@[old(seen)@.len() as int]@) == cards_spec(columns@),
        final(out)@.len() == old(out)@.len() + 1 || exists|i: int| 0 <= i < old(seen)@.len() && cards_view(#[trigger] old(seen)@[i]@) == cards_spec(columns@),
        final(seen)@.len() > old(seen)@.len() ==> forall|i: int| 0 <= i < old(seen)@.len() ==> cards_view(#[trigger] old(seen)@[i]@) != cards_spec(columns@),
{
    let key = cards(columns);
    let mut i: usize = 0;
    while i < seen.len()
        invariant
            i <= seen@.len(),
            cards_view(key@) == cards_spec(columns@),
            forall|j: int| 0 <= j < i ==> cards_view(#[trigger] seen@[j]@) != cards_view(key@),
        decreases seen.len() - i,
    {
        if same_cards(&seen[i], &key) {
            return;
        }
        i += 1;
    }
    seen.push(key);
    out.push(copy_columns(columns));
    proof {
        let k = out@.len() - 1;
        assert(cols_view(out@[k]@) == cols_view(columns@));
    }
}

/// A sweep of every column but the first, each by its previous column.
fn sweep_down(l: &mut Layered)
    requires
        old(l).columns@.len() <= MAX_NODES,
        old(l).segments@.len() <= MAX_SEGMENTS,
        forall|c: int| 0 <= c < old(l).columns@.len() ==> (#[trigger] old(l).columns@[c])@.len() <= MAX_NODES + MAX_EDGES,
    ensures
        swept(&*old(l), &*final(l)),
        old(l).columns@.len() == 0 ==> *final(l) == *old(l),
        old(l).columns@.len() > 0 ==> exists|states: Seq<Layered>| sweeps_down(states, *old(l), *final(l)),
{
    let cols = l.columns.len();
    let ghost start = *l;
    let ghost mut states: Seq<Layered> = seq![*l];
    let mut c: usize = 1;
    while c < cols
        invariant
            1 <= c,
            cols == l.columns@.len(),
            cols <= MAX_NODES,
            l.segments@.len() <= MAX_SEGMENTS,
            forall|x: int| 0 <= x < l.columns@.len() ==> (#[trigger] l.columns@[x])@.len() <= MAX_NODES + MAX_EDGES,
            swept(&start, &*l),
            cols > 0 ==> c <= cols,
            cols == 0 ==> c == 1,
            states.len() == c,
            states[0] == start,
            states.last() == *l,
            forall|i: int| 1 <= i < c ==> #[trigger] swept_column(&states[i - 1], &states[i], i, true),
        decreases cols - c,
    {
        sweep_column(l, c, true);
        proof {
            states = states.push(*l);
        }
        c += 1;
    }
    proof {
        if cols > 0 {
            assert(sweeps_down(states, start, *l));
        } else {
            assert(states.len() == 1);
            assert(states[0] == states.last());
        }
    }
}

/// `states` runs from `start` to `end`, each sweeping its column by the
/// previous one, left to right.
pub open spec fn sweeps_down(states: Seq<Layered>, start: Layered, end: Layered) -> bool {
    &&& states.len() == start.columns@.len()
    &&& states[0] == start
    &&& states.last() == end
    &&& forall|i: int| 1 <= i < states.len() ==> #[trigger] swept_column(&states[i - 1], &states[i], i, true)
}

/// `states` runs from `start` to `end`, each sweeping its column by the
/// next one, right to left.
pub open spec fn sweeps_up(states: Seq<Layered>, start: Layered, end: Layered) -> bool {
    &&& states.len() == start.columns@.len()
    &&& states[0] == start
    &&& states.last() == end
    &&& forall|i: int| 1 <= i < states.len() ==> #[trigger] swept_column(&states[i - 1], &states[i], states.len() - 1 - i, false)
}

/// A sweep of every column but the last, right to left, each by its next
/// column.
fn sweep_up(l: &mut Layered)
    requires
        old(l).columns@.len() <= MAX_NODES,
        old(l).segments@.len() <= MAX_SEGMENTS,
        forall|c: int| 0 <= c < old(l).columns@.len() ==> (#[trigger] old(l).columns@[c])@.len() <= MAX_NODES + MAX_EDGES,
    ensures
        swept(&*old(l), &*final(l)),
        old(l).columns@.len() == 0 ==> *final(l) == *old(l),
        old(l).columns@.len() > 0 ==> exists|states: Seq<Layered>| sweeps_up(states, *old(l), *final(l)),
{
    let cols = l.columns.len();
    let ghost start = *l;
    let ghost mut states: Seq<Layered> = seq![*l];
    if cols < 2 {
        proof {
            if cols == 1 {
                assert(sweeps_up(states, start, *l));
            }
        }
        return;
    }
    let mut c: usize = cols - 1;
    while c > 0
        invariant
            c < cols,
            cols == l.columns@.len(),
            cols <= MAX_NODES,
            l.segments@.len() <= MAX_SEGMENTS,
            forall|x: int| 0 <= x < l.columns@.len() ==> (#[trigger] l.columns@[x])@.len() <= MAX_NODES + MAX_EDGES,
            swept(&start, &*l),
            start.columns@.len() == cols,
            states.len() == cols - c,
            states[0] == start,
            states.last() == *l,
            forall|i: int| 1 <= i < states.len() ==> #[trigger] swept_column(&states[i - 1], &states[i], cols - 1 - i, false),
        decreases c,
    {
        sweep_column(l, c - 1, false);
        proof {
            states = states.push(*l);
        }
        c -= 1;
    }
    proof {
        assert(sweeps_up(states, start, *l));
    }
}

/// Candidate column orders: the first downward pass, then every alternating
/// barycenter sweep that puts the cards in an order not seen before. The
/// caller draws each and keeps the best; the order here is the tie-break.
pub fn orderings(l: &mut Layered) -> (out: Vec<Vec<Vec<LNode>>>)
    requires
        old(l).columns@.len() <= MAX_NODES,
        old(l).segments@.len() <= MAX_SEGMENTS,
        forall|c: int| 0 <= c < old(l).columns@.len() ==> (#[trigger] old(l).columns@[c])@.len() <= MAX_NODES + MAX_EDGES,
    ensures
        swept(&*old(l), &*final(l)),
        out@.len() >= 1,
        out@.len() <= MAX_SWEEPS + 1,
        forall|i: int| 0 <= i < out@.len() ==> permutes((#[trigger] out@[i])@, old(l).columns@),
        forall|i: int, j: int|
            0 <= i < j < out@.len() ==> cards_spec((#[trigger] out@[i])@) != cards_spec((#[trigger] out@[j])@),
{
    let cols = l.columns.len();
    let ghost start = *l;
    if cols < 2 {
        let mut out: Vec<Vec<Vec<LNode>>> = Vec::new();
        let copy = copy_columns(&l.columns);
        out.push(copy);
        proof {
            assert(permutes(out@[0]@, start.columns@));
        }
        return out;
    }
    let mut out: Vec<Vec<Vec<LNode>>> = Vec::new();
    let mut seen: Vec<Vec<Vec<NodeId>>> = Vec::new();
    sweep_down(l);
    keep(&l.columns, &mut seen, &mut out);
    proof {
        assert(out@.len() == 1);
        assert(cols_view(out@[0]@) == cols_view(l.columns@));
        assert(cols_view(out@[0]@).len() == cols_view(l.columns@).len());
        assert forall|c: int| 0 <= c < out@[0]@.len() implies (#[trigger] out@[0]@[c])@ == l.columns@[c]@ by {
            assert(cols_view(out@[0]@)[c] == cols_view(l.columns@)[c]);
        }
        assert(out@[0]@.len() == cols_view(out@[0]@).len());
        assert(cards_spec(out@[0]@) =~= cards_spec(l.columns@));
    }
    let mut sweep: usize = 0;
    while sweep < MAX_SWEEPS
        invariant
            sweep <= MAX_SWEEPS,
            swept(&start, &*l),
            start.columns@.len() <= MAX_NODES,
            start.segments@.len() <= MAX_SEGMENTS,
            forall|c: int| 0 <= c < start.columns@.len() ==> (#[trigger] start.columns@[c])@.len() <= MAX_NODES + MAX_EDGES,
            1 <= out@.len() <= sweep + 1,
            seen@.len() == out@.len(),
            forall|i: int| 0 <= i < out@.len() ==> permutes((#[trigger] out@[i])@, start.columns@),
            forall|i: int| 0 <= i < out@.len() ==> cards_view((#[trigger] seen@[i])@) == cards_spec(out@[i]@),
            forall|i: int, j: int|
                0 <= i < j < out@.len() ==> cards_spec((#[trigger] out@[i])@) != cards_spec((#[trigger] out@[j])@),
        decreases MAX_SWEEPS - sweep,
    {
        if sweep % 2 == 0 {
            sweep_down(l);
        } else {
            sweep_up(l);
        }
        let ghost out0 = out@;
        let ghost seen0 = seen@;
        keep(&l.columns, &mut seen, &mut out);
        proof {
            if out@.len() > out0.len() {
                let k = out0.len() as int;
                assert(cols_view(out@[k]@) == cols_view(l.columns@));
                assert(cols_view(out@[k]@).len() == cols_view(l.columns@).len());
                assert forall|c: int| 0 <= c < out@[k]@.len() implies (#[trigger] out@[k]@[c])@ == l.columns@[c]@ by {
                    assert(cols_view(out@[k]@)[c] == cols_view(l.columns@)[c]);
                }
                assert(out@[k]@.len() == cols_view(out@[k]@).len());
                assert(permutes(out@[k]@, start.columns@));
                assert(cards_spec(out@[k]@) =~= cards_spec(l.columns@));
                assert forall|i: int| 0 <= i < k implies cards_spec((#[trigger] out@[i])@) != cards_spec(out@[k]@) by {
                    assert(seen0[i] == seen@[i]);
                }
            }
        }
        sweep += 1;
    }
    out
}

/// Two cards next to each other in a column, pass slots between them ignored.
pub open spec fn adjacent_cards(columns: Seq<Vec<LNode>>, c: int, a: int, b: int) -> bool {
    &&& 0 <= c < columns.len()
    &&& 0 <= a < b < columns[c]@.len()
    &&& columns[c]@[a] is Real
    &&& columns[c]@[b] is Real
    &&& forall|k: int| a < k < b ==> (#[trigger] columns[c]@[k]) is Pass
}

/// `(column, index, index)` of every pair of cards adjacent in a column,
/// pass slots between them ignored, column by column, top to bottom.
pub fn card_pairs(columns: &Vec<Vec<LNode>>) -> (out: Vec<(usize, usize, usize)>)
    ensures
        forall|i: int| 0 <= i < out@.len() ==> adjacent_cards(columns@, (#[trigger] out@[i]).0 as int, out@[i].1 as int, out@[i].2 as int),
        forall|c: int, a: int, b: int| adjacent_cards(columns@, c, a, b) ==> exists|i: int| 0 <= i < out@.len() && #[trigger] out@[i] == (c as usize, a as usize, b as usize),
{
    let mut out: Vec<(usize, usize, usize)> = Vec::new();
    let mut c: usize = 0;
    while c < columns.len()
        invariant
            c <= columns@.len(),
            forall|i: int| 0 <= i < out@.len() ==> adjacent_cards(columns@, (#[trigger] out@[i]).0 as int, out@[i].1 as int, out@[i].2 as int),
            forall|x: int, a: int, b: int| x < c && adjacent_cards(columns@, x, a, b) ==> exists|i: int| 0 <= i < out@.len() && #[trigger] out@[i] == (x as usize, a as usize, b as usize),
        decreases columns.len() - c,
    {
        let col = &columns[c];
        let mut last: Option<usize> = None;
        let mut k: usize = 0;
        while k < col.len()
            invariant
                k <= col@.len(),
                c < columns@.len(),
                col == columns@[c as int],
                match last {
                    Some(a) => a < k && col@[a as int] is Real && forall|j: int| a < j < k ==> (#[trigger] col@[j]) is Pass,
                    None => forall|j: int| 0 <= j < k ==> (#[trigger] col@[j]) is Pass,
                },
                forall|i: int| 0 <= i < out@.len() ==> adjacent_cards(columns@, (#[trigger] out@[i]).0 as int, out@[i].1 as int, out@[i].2 as int),
                forall|x: int, a: int, b: int| (x < c || (x == c && b < k)) && adjacent_cards(columns@, x, a, b) ==> exists|i: int| 0 <= i < out@.len() && #[trigger] out@[i] == (x as usize, a as usize, b as usize),
            decreases col.len() - k,
        {
            match col[k] {
                LNode::Real(_) => {
                    let ghost o = out@;
                    if let Some(a) = last {
                        out.push((c, a, k));
                        proof {
                            let n = out@.len() - 1;
                            assert(out@[n] == (c, a, k));
                        }
                    }
                    proof {
                        assert forall|x: int, a2: int, b: int| (x < c || (x == c && b < k + 1)) && adjacent_cards(columns@, x, a2, b) implies exists|i: int| 0 <= i < out@.len() && #[trigger] out@[i] == (x as usize, a2 as usize, b as usize) by {
                            if !(x == c && b == k) {
                                let i = choose|i: int| 0 <= i < o.len() && #[trigger] o[i] == (x as usize, a2 as usize, b as usize);
                                assert(out@[i] == o[i]);
                            } else {
                                match last {
                                    Some(a) => {
                                        if a2 < a {
                                            assert(columns@[c as int]@[a as int] is Pass);
                                        } else if a2 > a {
                                            assert(col@[a2] is Pass);
                                        }
                                        assert(out@[out@.len() - 1] == (x as usize, a2 as usize, b as usize));
                                    },
                                    None => {
                                        assert(col@[a2] is Pass);
                                    },
                                }
                            }
                        }
                    }
                    last = Some(k);
                },
                LNode::Pass(_) => {
                    proof {
                        assert forall|x: int, a2: int, b: int| (x < c || (x == c && b < k + 1)) && adjacent_cards(columns@, x, a2, b) implies exists|i: int| 0 <= i < out@.len() && #[trigger] out@[i] == (x as usize, a2 as usize, b as usize) by {
                            if x == c && b == k {
                                assert(col@[b] is Pass);
                            }
                        }
                    }
                },
            }
            k += 1;
        }
        c += 1;
    }
    out
}

} // verus!
