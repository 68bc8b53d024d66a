//! Pack the vertical runs in one gap onto tracks: two runs share a track when
//! they do not overlap, or when they share a source or a target, so a fan-out
//! is one bus with a junction per branch. Then order the tracks left to right
//! so no horizontal lands on another run's corner and horizontals cross as
//! few verticals as possible.

use vstd::prelude::*;

use crate::layout::{EdgeColour, EdgeId, MAX_EDGES};

verus! {

#[derive(Debug, Clone, Copy)]
pub struct Span {
    pub edge: EdgeId,
    /// Rows covered by the vertical run.
    pub lo: i32,
    pub hi: i32,
    /// Row of the horizontal arriving from the left, and leaving to the right.
    pub y_in: i32,
    pub y_out: i32,
    pub src: u32,
    pub dst: u32,
    /// The edge's colour, so a bus can be split by colour when asked.
    pub colour: Option<EdgeColour>,
}

/// Most runs one gap holds: every segment, and two lane runs of every edge.
pub const MAX_GAP_SPANS: usize = 4202496;

/// Two runs of one bus: they leave the same card or reach the same one (and,
/// with `by_colour`, are the same colour).
pub open spec fn related(s: Span, o: Span, by_colour: bool) -> bool {
    (o.src == s.src || o.dst == s.dst) && (!by_colour || o.colour == s.colour)
}

/// Two runs with at least one blank row between them.
pub open spec fn disjoint(s: Span, o: Span) -> bool {
    s.hi + 1 < o.lo || o.hi + 1 < s.lo
}

/// Two runs that may share a track.
pub open spec fn may_share(s: Span, o: Span, by_colour: bool) -> bool {
    related(s, o, by_colour) || disjoint(s, o)
}

pub open spec fn straight(s: Span) -> bool {
    s.lo == s.hi
}

pub open spec fn compatible(t: Seq<Span>, s: Span, by_colour: bool) -> bool {
    forall|q: int| 0 <= q < t.len() ==> may_share(s, #[trigger] t[q], by_colour)
}

pub open spec fn same_bus(t: Seq<Span>, s: Span) -> bool {
    exists|q: int|
        0 <= q < t.len() && ((#[trigger] t[q]).src == s.src || t[q].dst == s.dst) && t[q].colour == s.colour
}

pub open spec fn track_ok(t: Seq<Span>, by_colour: bool) -> bool {
    forall|p: int, q: int| 0 <= p < t.len() && 0 <= q < t.len() && p != q ==> may_share(#[trigger] t[p], #[trigger] t[q], by_colour)
}

fn may_share_exec(s: &Span, o: &Span, by_colour: bool) -> (r: bool)
    requires
        s.hi < i32::MAX,
        o.hi < i32::MAX,
    ensures
        r == may_share(*s, *o, by_colour),
{
    let colour_ok = match (o.colour, s.colour) {
        (Some(a), Some(b)) => a.0 == b.0,
        (None, None) => true,
        _ => false,
    };
    let related = (o.src == s.src || o.dst == s.dst) && (!by_colour || colour_ok);
    let disjoint = s.hi + 1 < o.lo || o.hi + 1 < s.lo;
    related || disjoint
}

fn same_colour(a: Option<EdgeColour>, b: Option<EdgeColour>) -> (r: bool)
    ensures
        r == (a == b),
{
    match (a, b) {
        (Some(x), Some(y)) => x.0 == y.0,
        (None, None) => true,
        _ => false,
    }
}

fn compatible_exec(t: &Vec<Span>, s: &Span, by_colour: bool) -> (r: bool)
    requires
        s.hi < i32::MAX,
        forall|q: int| 0 <= q < t@.len() ==> (#[trigger] t@[q]).hi < i32::MAX,
    ensures
        r == compatible(t@, *s, by_colour),
{
    let mut q: usize = 0;
    while q < t.len()
        invariant
            q <= t@.len(),
            s.hi < i32::MAX,
            forall|x: int| 0 <= x < t@.len() ==> (#[trigger] t@[x]).hi < i32::MAX,
            forall|x: int| 0 <= x < q ==> may_share(*s, #[trigger] t@[x], by_colour),
        decreases t.len() - q,
    {
        if !may_share_exec(s, &t[q], by_colour) {
            return false;
        }
        q += 1;
    }
    true
}

fn same_bus_exec(t: &Vec<Span>, s: &Span) -> (r: bool)
    ensures
        r == same_bus(t@, *s),
{
    let mut q: usize = 0;
    while q < t.len()
        invariant
            q <= t@.len(),
            forall|x: int|
                0 <= x < q ==> !(((#[trigger] t@[x]).src == s.src || t@[x].dst == s.dst) && t@[x].colour
                    == s.colour),
        decreases t.len() - q,
    {
        let o = &t[q];
        if (o.src == s.src || o.dst == s.dst) && same_colour(o.colour, s.colour) {
            return true;
        }
        q += 1;
    }
    false
}

/// Sort key of a run: top row, bottom row, edge.
pub open spec fn span_le(a: Span, b: Span) -> bool {
    a.lo < b.lo || (a.lo == b.lo && (a.hi < b.hi || (a.hi == b.hi && a.edge.0 <= b.edge.0)))
}

fn span_gt(a: &Span, b: &Span) -> (r: bool)
    ensures
        r == !span_le(*a, *b),
{
    !(a.lo < b.lo || (a.lo == b.lo && (a.hi < b.hi || (a.hi == b.hi && a.edge.0 <= b.edge.0))))
}

/// The non-straight runs' indices, sorted by top row, bottom row and edge,
/// ties in input order.
fn sorted_runs(spans: &Vec<Span>) -> (order: Vec<usize>)
    requires
        spans@.len() <= MAX_GAP_SPANS,
    ensures
        order@.len() <= spans@.len(),
        forall|k: int| 0 <= k < order@.len() ==> #[trigger] order@[k] < spans@.len(),
        forall|k: int| 0 <= k < order@.len() ==> !straight(spans@[#[trigger] order@[k] as int]),
        forall|i: int| 0 <= i < spans@.len() && !straight(#[trigger] spans@[i]) ==> order@.contains(i as usize),
        forall|a: int, b: int| 0 <= a < b < order@.len() ==> #[trigger] order@[a] != #[trigger] order@[b],
        forall|a: int, b: int|
            0 <= a < b < order@.len() ==> span_le(spans@[#[trigger] order@[a] as int], spans@[#[trigger] order@[b] as int]),
{
    let mut order: Vec<usize> = Vec::new();
    let mut i: usize = 0;
    while i < spans.len()
        invariant
            i <= spans@.len(),
            order@.len() <= i,
            forall|k: int| 0 <= k < order@.len() ==> #[trigger] order@[k] < i,
            forall|k: int| 0 <= k < order@.len() ==> !straight(spans@[#[trigger] order@[k] as int]),
            forall|x: int| 0 <= x < i && !straight(#[trigger] spans@[x]) ==> order@.contains(x as usize),
            forall|a: int, b: int| 0 <= a < b < order@.len() ==> #[trigger] order@[a] != #[trigger] order@[b],
            forall|a: int, b: int|
                0 <= a < b < order@.len() ==> span_le(spans@[#[trigger] order@[a] as int], spans@[#[trigger] order@[b] as int]),
        decreases spans.len() - i,
    {
        let s = &spans[i];
        if s.lo != s.hi {
            let mut pos: usize = order.len();
            while pos > 0 && span_gt(&spans[order[pos - 1]], s)
                invariant
                    pos <= order@.len(),
                    i < spans@.len(),
                    forall|k: int| 0 <= k < order@.len() ==> #[trigger] order@[k] < i,
                    forall|k: int| pos <= k < order@.len() ==> !span_le(spans@[#[trigger] order@[k] as int], *s),
                decreases pos,
            {
                pos -= 1;
            }
            let ghost o = order@;
            order.insert(pos, i);
            proof {
                assert forall|a: int, b: int| 0 <= a < b < order@.len() implies span_le(spans@[#[trigger] order@[a] as int], spans@[#[trigger] order@[b] as int]) by {
                    if b < pos {
                        assert(order@[a] == o[a] && order@[b] == o[b]);
                    } else if b == pos {
                        assert(order@[a] == o[a]);
                        if a < pos - 1 {
                            assert(span_le(spans@[o[a] as int], spans@[o[pos - 1] as int]));
                        }
                        assert(span_le(spans@[o[pos - 1] as int], *s));
                    } else if a == pos {
                        assert(order@[b] == o[b - 1]);
                        assert(!span_le(spans@[o[b - 1] as int], *s));
                    } else if a < pos {
                        assert(order@[a] == o[a] && order@[b] == o[b - 1]);
                    } else {
                        assert(order@[a] == o[a - 1] && order@[b] == o[b - 1]);
                    }
                }
                assert forall|a: int, b: int| 0 <= a < b < order@.len() implies #[trigger] order@[a] != #[trigger] order@[b] by {
                    if a != pos && b != pos {
                        let a0 = if a < pos { a } else { a - 1 };
                        let b0 = if b < pos { b } else { b - 1 };
                        assert(order@[a] == o[a0] && order@[b] == o[b0]);
                    } else if a == pos {
                        let b0 = if b < pos { b } else { b - 1 };
                        assert(order@[b] == o[b0]);
                    } else {
                        assert(order@[a] == o[a]);
                    }
                }
                assert forall|x: int| 0 <= x < i + 1 && !straight(#[trigger] spans@[x]) implies order@.contains(x as usize) by {
                    if x == i {
                        assert(order@[pos as int] == i);
                    } else {
                        let k = choose|k: int| 0 <= k < o.len() && o[k] == x as usize;
                        let k2 = if k < pos { k } else { k + 1 };
                        assert(order@[k2] == o[k]);
                    }
                }
                assert forall|k: int| 0 <= k < order@.len() implies #[trigger] order@[k] < i + 1 by {
                    if k < pos {
                        assert(order@[k] == o[k]);
                    } else if k > pos {
                        assert(order@[k] == o[k - 1]);
                    }
                }
                assert forall|k: int| 0 <= k < order@.len() implies !straight(spans@[#[trigger] order@[k] as int]) by {
                    if k < pos {
                        assert(order@[k] == o[k]);
                    } else if k > pos {
                        assert(order@[k] == o[k - 1]);
                    }
                }
            }
        }
        i += 1;
    }
    order
}

/// Each track's runs, and the track of each run.
pub open spec fn placed(spans: Seq<Span>, tracks: Seq<Vec<Span>>, raw: Seq<usize>, i: int) -> bool {
    raw[i] < tracks.len() && tracks[raw[i] as int]@.contains(spans[i])
}

/// Track `t` has a place in `perm`.
pub open spec fn holds(perm: Seq<usize>, t: int) -> bool {
    exists|p: int| 0 <= p < perm.len() && #[trigger] perm[p] == t
}

/// `perm` puts every track somewhere left to right.
pub open spec fn is_perm(perm: Seq<usize>, n: nat) -> bool {
    &&& perm.len() == n
    &&& forall|p: int| 0 <= p < n ==> #[trigger] perm[p] < n
    &&& forall|t: int| 0 <= t < n ==> #[trigger] holds(perm, t)
    &&& forall|a: int, b: int| 0 <= a < b < n ==> #[trigger] perm[a] != #[trigger] perm[b]
}

/// One of the first `k` runs in `order` was put in track `t`.
pub open spec fn track_has(raw: Seq<usize>, order: Seq<usize>, k: int, t: int) -> bool {
    exists|x: int| 0 <= x < k && #[trigger] raw[order[x] as int] == t
}

/// Some run that is not straight is given track `t`.
pub open spec fn used_track(spans: Seq<Span>, assign: Seq<usize>, t: int) -> bool {
    exists|i: int| 0 <= i < spans.len() && !straight(spans[i]) && #[trigger] assign[i] == t
}

/// Some span on track `t` is `sp`, placed there among the first `k` of `order`.
pub open spec fn member(spans: Seq<Span>, raw: Seq<usize>, order: Seq<usize>, k: int, t: int, sp: Span) -> bool {
    exists|x: int| 0 <= x < k && #[trigger] raw[order[x] as int] == t && spans[order[x] as int] == sp
}

/// Among the first `k` of `order`, a run on track `t1` and one on track `t2`
/// that may not share a track.
pub open spec fn raw_apart(spans: Seq<Span>, raw: Seq<usize>, order: Seq<usize>, k: int, t1: int, t2: int, by_colour: bool) -> bool {
    exists|x1: int, x2: int|
        0 <= x1 < k && 0 <= x2 < k && #[trigger] raw[order[x1] as int] == t1 && #[trigger] raw[order[x2] as int] == t2
            && !may_share(spans[order[x1] as int], spans[order[x2] as int], by_colour)
}

/// Tracks `t1` and `t2` could not be merged: a run on one and a run on the
/// other may not share a track.
pub open spec fn tracks_apart(spans: Seq<Span>, assign: Seq<usize>, t1: int, t2: int, by_colour: bool) -> bool {
    exists|i: int, j: int|
        0 <= i < spans.len() && 0 <= j < spans.len() && !straight(spans[i]) && !straight(spans[j]) && #[trigger] assign[i]
            == t1 && #[trigger] assign[j] == t2 && !may_share(spans[i], spans[j], by_colour)
}

/// Returns, per span (same order as input), the track index; and the track
/// count. A straight span (no vertical run) takes no track and reports 0.
/// Two runs on one track are one bus or have a blank row between them.
pub fn pack(spans: &Vec<Span>, by_colour: bool) -> (r: (Vec<usize>, usize))
    requires
        spans@.len() <= MAX_GAP_SPANS,
        forall|i: int| 0 <= i < spans@.len() ==> (#[trigger] spans@[i]).hi < i32::MAX,
        forall|i: int| 0 <= i < spans@.len() ==> (#[trigger] spans@[i]).lo <= spans@[i].hi,
    ensures
        r.0@.len() == spans@.len(),
        r.1 <= spans@.len(),
        forall|i: int| 0 <= i < spans@.len() && straight(#[trigger] spans@[i]) ==> r.0@[i] == 0,
        forall|i: int| 0 <= i < spans@.len() && !straight(#[trigger] spans@[i]) ==> r.0@[i] < r.1,
        forall|i: int, j: int|
            0 <= i < spans@.len() && 0 <= j < spans@.len() && !straight(#[trigger] spans@[i]) && !straight(
                #[trigger] spans@[j],
            ) && r.0@[i] == r.0@[j] ==> may_share(spans@[i], spans@[j], by_colour),
        forall|t: int| 0 <= t < r.1 ==> #[trigger] used_track(spans@, r.0@, t),
        forall|t1: int, t2: int|
            0 <= t1 < r.1 && 0 <= t2 < r.1 && t1 != t2 ==> #[trigger] tracks_apart(spans@, r.0@, t1, t2, by_colour),
{
    let order = sorted_runs(spans);
    let mut tracks: Vec<Vec<Span>> = Vec::new();
    let mut raw: Vec<usize> = Vec::new();
    let mut i: usize = 0;
    while i < spans.len()
        invariant
            i <= spans@.len(),
            raw@.len() == i,
            forall|x: int| 0 <= x < i ==> #[trigger] raw@[x] == 0,
        decreases spans.len() - i,
    {
        raw.push(0);
        i += 1;
    }
    let mut k: usize = 0;
    while k < order.len()
        invariant
            k <= order@.len(),
            order@.len() <= spans@.len(),
            spans@.len() <= MAX_GAP_SPANS,
            forall|i: int| 0 <= i < spans@.len() ==> (#[trigger] spans@[i]).hi < i32::MAX,
            forall|x: int| 0 <= x < order@.len() ==> #[trigger] order@[x] < spans@.len(),
            forall|a: int, b: int| 0 <= a < b < order@.len() ==> #[trigger] order@[a] != #[trigger] order@[b],
            raw@.len() == spans@.len(),
            tracks@.len() <= k,
            forall|t: int| 0 <= t < tracks@.len() ==> track_ok((#[trigger] tracks@[t])@, by_colour),
            forall|t: int| 0 <= t < tracks@.len() ==> (#[trigger] tracks@[t])@.len() <= k,
            forall|t: int, q: int| 0 <= t < tracks@.len() && 0 <= q < tracks@[t]@.len() ==> (#[trigger] tracks@[t]@[q]).hi < i32::MAX,
            forall|x: int| 0 <= x < k ==> placed(spans@, tracks@, raw@, #[trigger] order@[x] as int),
            forall|t: int| 0 <= t < tracks@.len() ==> #[trigger] track_has(raw@, order@, k as int, t),
            forall|x: int| 0 <= x < order@.len() ==> !straight(spans@[#[trigger] order@[x] as int]),
            forall|t: int, q: int|
                0 <= t < tracks@.len() && 0 <= q < tracks@[t]@.len() ==> member(spans@, raw@, order@, k as int, t, #[trigger] tracks@[t]@[q]),
            forall|t1: int, t2: int|
                0 <= t1 < t2 < tracks@.len() ==> #[trigger] raw_apart(spans@, raw@, order@, k as int, t1, t2, by_colour),
        decreases order.len() - k,
    {
        let si = order[k];
        let s = spans[si];
        // A track already carrying this run's bus before any other: first fit
        // alone would open a new track for a long run and then drop a short
        // one of the same colour and target into an older track, drawing one
        // line as two a column apart.
        let mut slot: Option<usize> = None;
        let mut t: usize = 0;
        while t < tracks.len()
            invariant
                t <= tracks@.len(),
                s.hi < i32::MAX,
                forall|x: int, q: int| 0 <= x < tracks@.len() && 0 <= q < tracks@[x]@.len() ==> (#[trigger] tracks@[x]@[q]).hi < i32::MAX,
                slot matches Some(x) ==> x < tracks@.len() && compatible(tracks@[x as int]@, s, by_colour),
            decreases tracks.len() - t,
        {
            if slot.is_none() && compatible_exec(&tracks[t], &s, by_colour) && same_bus_exec(&tracks[t], &s) {
                slot = Some(t);
            }
            t += 1;
        }
        if slot.is_none() {
            let mut t: usize = 0;
            while t < tracks.len()
                invariant
                    t <= tracks@.len(),
                    s.hi < i32::MAX,
                    forall|x: int, q: int| 0 <= x < tracks@.len() && 0 <= q < tracks@[x]@.len() ==> (#[trigger] tracks@[x]@[q]).hi < i32::MAX,
                    slot matches Some(x) ==> x < tracks@.len() && compatible(tracks@[x as int]@, s, by_colour),
                slot is None ==> forall|x: int| 0 <= x < t ==> !compatible(#[trigger] tracks@[x]@, s, by_colour),
                decreases tracks.len() - t,
            {
                if slot.is_none() && compatible_exec(&tracks[t], &s, by_colour) {
                    slot = Some(t);
                }
                t += 1;
            }
        }
        let ghost tr0 = tracks@;
        let ghost opened = slot is None;
        let at = match slot {
            Some(x) => x,
            None => {
                tracks.push(Vec::new());
                tracks.len() - 1
            },
        };
        let ghost tr1 = tracks@;
        let ghost old_track = tracks@[at as int]@;
        let ghost raw0 = raw@;
        tracks[at].push(s);
        raw.set(si, at);
        proof {
            assert forall|x: int| 0 <= x < k implies #[trigger] raw@[order@[x] as int] == raw0[order@[x] as int] by {
                assert(order@[x] != order@[k as int]);
            }
            assert(raw@[order@[k as int] as int] == at);
            assert forall|t: int, q: int|
                0 <= t < tracks@.len() && 0 <= q < tracks@[t]@.len() implies member(spans@, raw@, order@, k + 1, t, #[trigger] tracks@[t]@[q]) by {
                if t == at && q == tracks@[t]@.len() - 1 {
                    assert(raw@[order@[k as int] as int] == t && spans@[order@[k as int] as int] == tracks@[t]@[q]);
                } else {
                    assert(tracks@[t]@[q] == tr1[t]@[q]);
                    assert(member(spans@, raw0, order@, k as int, t, tr1[t]@[q]));
                    let x = choose|x: int| 0 <= x < k && #[trigger] raw0[order@[x] as int] == t && spans@[order@[x] as int] == tr1[t]@[q];
                    assert(raw@[order@[x] as int] == t);
                }
            }
            assert forall|t1: int, t2: int|
                0 <= t1 < t2 < tracks@.len() implies #[trigger] raw_apart(spans@, raw@, order@, k + 1, t1, t2, by_colour) by {
                if t2 < tr0.len() {
                    assert(raw_apart(spans@, raw0, order@, k as int, t1, t2, by_colour));
                    let (x1, x2) = choose|x1: int, x2: int|
                        0 <= x1 < k && 0 <= x2 < k && #[trigger] raw0[order@[x1] as int] == t1 && #[trigger] raw0[order@[x2] as int] == t2
                            && !may_share(spans@[order@[x1] as int], spans@[order@[x2] as int], by_colour);
                    assert(raw@[order@[x1] as int] == t1 && raw@[order@[x2] as int] == t2);
                } else {
                    assert(opened);
                    assert(t2 == at);
                    assert(!compatible(tr0[t1]@, s, by_colour));
                    let q = choose|q: int| 0 <= q < tr0[t1]@.len() && !may_share(s, #[trigger] tr0[t1]@[q], by_colour);
                    assert(member(spans@, raw0, order@, k as int, t1, tr0[t1]@[q]));
                    let x = choose|x: int| 0 <= x < k && #[trigger] raw0[order@[x] as int] == t1 && spans@[order@[x] as int] == tr0[t1]@[q];
                    assert(raw@[order@[x] as int] == t1);
                    assert(!may_share(spans@[order@[x] as int], spans@[order@[k as int] as int], by_colour));
                }
            }
            assert forall|t: int| 0 <= t < tracks@.len() implies #[trigger] track_has(raw@, order@, k + 1, t) by {
                if t == at {
                    assert(raw@[order@[k as int] as int] == t);
                } else {
                    assert(t < tr0.len());
                    assert(track_has(raw0, order@, k as int, t));
                    let x = choose|x: int| 0 <= x < k && #[trigger] raw0[order@[x] as int] == t;
                    assert(order@[x] != order@[k as int]);
                    assert(raw@[order@[x] as int] == t);
                }
            }
            assert(tracks@[at as int]@ == old_track.push(s));
            assert(compatible(old_track, s, by_colour));
            assert forall|x: int| 0 <= x < tracks@.len() implies track_ok((#[trigger] tracks@[x])@, by_colour) by {
                if x == at {
                    let tt = tracks@[x]@;
                    assert forall|p: int, q: int| 0 <= p < tt.len() && 0 <= q < tt.len() && p != q implies may_share(#[trigger] tt[p], #[trigger] tt[q], by_colour) by {
                        if p == tt.len() - 1 {
                            assert(may_share(s, tt[q], by_colour));
                        } else if q == tt.len() - 1 {
                            assert(may_share(s, tt[p], by_colour));
                        } else {
                            assert(tt[p] == old_track[p] && tt[q] == old_track[q]);
                        }
                    }
                } else {
                    assert(tracks@[x] == tr1[x]);
                }
            }
            assert forall|x: int| 0 <= x < k + 1 implies placed(spans@, tracks@, raw@, #[trigger] order@[x] as int) by {
                let j = order@[x] as int;
                if x == k {
                    assert(tracks@[at as int]@[old_track.len() as int] == s);
                } else {
                    assert(order@[x] != order@[k as int]);
                    let t0 = raw@[j];
                    assert(tr0[t0 as int]@.contains(spans@[j]));
                    if t0 == at {
                        let q = choose|q: int| 0 <= q < tr1[t0 as int]@.len() && tr1[t0 as int]@[q] == spans@[j];
                        assert(tracks@[t0 as int]@[q] == spans@[j]);
                    } else {
                        assert(tracks@[t0 as int] == tr1[t0 as int]);
                    }
                }
            }
        }
        k += 1;
    }
    let perm = order_tracks(&tracks);
    let n = tracks.len();
    let mut rank: Vec<usize> = Vec::new();
    let mut x: usize = 0;
    while x < n
        invariant
            x <= n,
            rank@.len() == x,
            forall|t: int| 0 <= t < x ==> #[trigger] rank@[t] == 0,
        decreases n - x,
    {
        rank.push(0);
        x += 1;
    }
    let mut pos: usize = 0;
    while pos < n
        invariant
            pos <= n,
            n == tracks@.len(),
            is_perm(perm@, n as nat),
            rank@.len() == n,
            forall|t: int| 0 <= t < n ==> #[trigger] rank@[t] < n,
            forall|t: int| 0 <= t < n && (exists|p: int| 0 <= p < pos && #[trigger] perm@[p] == t) ==> perm@[rank@[t] as int] == t,
        decreases n - pos,
    {
        let t = perm[pos];
        rank.set(t, pos);
        proof {
            assert forall|t2: int| 0 <= t2 < n && (exists|p: int| 0 <= p < pos + 1 && #[trigger] perm@[p] == t2) implies perm@[rank@[t2] as int] == t2 by {
                if t2 != t {
                    let p = choose|p: int| 0 <= p < pos + 1 && #[trigger] perm@[p] == t2;
                    assert(p != pos);
                }
            }
        }
        pos += 1;
    }
    let mut assign: Vec<usize> = Vec::new();
    let mut i: usize = 0;
    while i < spans.len()
        invariant
            i <= spans@.len(),
            raw@.len() == spans@.len(),
            n == tracks@.len(),
            rank@.len() == n,
            assign@.len() == i,
            forall|x: int| 0 <= x < i ==> #[trigger] assign@[x] == if !straight(spans@[x]) && raw@[x] < n { rank@[raw@[x] as int] } else { 0 },
        decreases spans.len() - i,
    {
        let a = raw[i];
        let s = &spans[i];
        assign.push(if s.lo != s.hi && a < n { rank[a] } else { 0 });
        i += 1;
    }
    proof {
        assert forall|t: int| 0 <= t < n implies #[trigger] used_track(spans@, assign@, t) by {
            let tt = perm@[t] as int;
            assert(perm@[rank@[tt] as int] == tt);
            if rank@[tt] as int != t {
                if (rank@[tt] as int) < t {
                    assert(perm@[rank@[tt] as int] != perm@[t]);
                } else {
                    assert(perm@[t] != perm@[rank@[tt] as int]);
                }
            }
            assert(track_has(raw@, order@, order@.len() as int, tt));
            let x = choose|x: int| 0 <= x < order@.len() && #[trigger] raw@[order@[x] as int] == tt;
            let i = order@[x] as int;
            assert(!straight(spans@[i]));
            assert(assign@[i] == rank@[raw@[i] as int]);
            assert(assign@[i] == t);
        }
        assert forall|t: int| 0 <= t < n implies #[trigger] rank@[perm@[t] as int] == t by {
            let tt = perm@[t] as int;
            assert(perm@[rank@[tt] as int] == tt);
            if rank@[tt] as int != t {
                if (rank@[tt] as int) < t {
                    assert(perm@[rank@[tt] as int] != perm@[t]);
                } else {
                    assert(perm@[t] != perm@[rank@[tt] as int]);
                }
            }
        }
        assert forall|t1: int, t2: int|
            0 <= t1 < n && 0 <= t2 < n && t1 != t2 implies #[trigger] tracks_apart(spans@, assign@, t1, t2, by_colour) by {
            let u1 = perm@[t1] as int;
            let u2 = perm@[t2] as int;
            if t1 < t2 {
                assert(u1 != u2);
            } else {
                assert(perm@[t2] != perm@[t1]);
            }
            let lo = if u1 < u2 { u1 } else { u2 };
            let hi = if u1 < u2 { u2 } else { u1 };
            assert(raw_apart(spans@, raw@, order@, order@.len() as int, lo, hi, by_colour));
            let (x1, x2) = choose|x1: int, x2: int|
                0 <= x1 < order@.len() && 0 <= x2 < order@.len() && #[trigger] raw@[order@[x1] as int] == lo
                    && #[trigger] raw@[order@[x2] as int] == hi && !may_share(spans@[order@[x1] as int], spans@[order@[x2] as int], by_colour);
            let i1 = order@[x1] as int;
            let i2 = order@[x2] as int;
            assert(!straight(spans@[i1]) && !straight(spans@[i2]));
            assert(assign@[i1] == rank@[lo]);
            assert(assign@[i2] == rank@[hi]);
            assert(rank@[perm@[t1] as int] == t1);
            assert(rank@[perm@[t2] as int] == t2);
            if u1 < u2 {
                assert(assign@[i1] == t1 && assign@[i2] == t2);
            } else {
                assert(assign@[i2] == t1 && assign@[i1] == t2);
                assert(!may_share(spans@[i2], spans@[i1], by_colour));
            }
        }
        assert forall|i: int| 0 <= i < spans@.len() && !straight(#[trigger] spans@[i]) implies placed(spans@, tracks@, raw@, i) by {
            let k = choose|k: int| 0 <= k < order@.len() && order@[k] == i as usize;
            assert(placed(spans@, tracks@, raw@, order@[k] as int));
        }
        assert forall|i: int, j: int|
            0 <= i < spans@.len() && 0 <= j < spans@.len() && !straight(#[trigger] spans@[i]) && !straight(#[trigger] spans@[j]) && assign@[i] == assign@[j] implies may_share(spans@[i], spans@[j], by_colour) by {
            assert(placed(spans@, tracks@, raw@, i));
            assert(placed(spans@, tracks@, raw@, j));
            let ti = raw@[i] as int;
            let tj = raw@[j] as int;
            assert(holds(perm@, ti));
            assert(holds(perm@, tj));
            assert(perm@[rank@[ti] as int] == ti);
            assert(perm@[rank@[tj] as int] == tj);
            assert(ti == tj);
            let tt = tracks@[ti]@;
            let qi = choose|q: int| 0 <= q < tt.len() && tt[q] == spans@[i];
            let qj = choose|q: int| 0 <= q < tt.len() && tt[q] == spans@[j];
            if qi != qj {
                assert(may_share(tt[qi], tt[qj], by_colour));
            }
        }
    }
    (assign, n)
}

/// Run `x` left of run `y`: 1 when `x` leaves on the row `y` arrives on.
pub open spec fn landing(x: Span, y: Span) -> int {
    if x.lo < x.hi && x.y_out == y.y_in { 1 } else { 0 }
}

/// Run `x` left of run `y`: how many of their horizontals cross the other's vertical.
pub open spec fn crossing(x: Span, y: Span) -> int {
    (if x.lo < y.y_in && y.y_in < x.hi { 1int } else { 0int }) + (if y.lo < x.y_out && x.y_out < y.hi { 1int } else { 0int })
}

/// `landing` of `x` against every run of `b`.
pub open spec fn landings_row(x: Span, b: Seq<Span>) -> int
    decreases b.len(),
{
    if b.len() == 0 { 0 } else { landings_row(x, b.drop_last()) + landing(x, b.last()) }
}

/// `crossing` of `x` against every run of `b`.
pub open spec fn crossings_row(x: Span, b: Seq<Span>) -> int
    decreases b.len(),
{
    if b.len() == 0 { 0 } else { crossings_row(x, b.drop_last()) + crossing(x, b.last()) }
}

/// `landing` summed over every run of `a` against every run of `b`.
pub open spec fn landings_all(a: Seq<Span>, b: Seq<Span>) -> int
    decreases a.len(),
{
    if a.len() == 0 { 0 } else { landings_all(a.drop_last(), b) + landings_row(a.last(), b) }
}

/// `crossing` summed over every run of `a` against every run of `b`.
pub open spec fn crossings_all(a: Seq<Span>, b: Seq<Span>) -> int
    decreases a.len(),
{
    if a.len() == 0 { 0 } else { crossings_all(a.drop_last(), b) + crossings_row(a.last(), b) }
}

/// Cost of drawing track `a` left of track `b`: horizontals landing on
/// another run's corner row (an overlap: it would read as one line), then
/// horizontals crossing a vertical.
fn cost(a: &Vec<Span>, b: &Vec<Span>) -> (c: (u64, u64))
    requires
        a@.len() <= MAX_GAP_SPANS,
        b@.len() <= MAX_GAP_SPANS,
    ensures
        c.0 <= MAX_GAP_SPANS * MAX_GAP_SPANS,
        c.1 <= 2 * MAX_GAP_SPANS * MAX_GAP_SPANS,
        c.0 == landings_all(a@, b@),
        c.1 == crossings_all(a@, b@),
{
    let mut landings: u64 = 0;
    let mut crossings: u64 = 0;
    let mut i: usize = 0;
    while i < a.len()
        invariant
            i <= a@.len(),
            a@.len() <= MAX_GAP_SPANS,
            b@.len() <= MAX_GAP_SPANS,
            landings <= i * b@.len(),
            crossings <= 2 * (i * b@.len()),
            landings == landings_all(a@.take(i as int), b@),
            crossings == crossings_all(a@.take(i as int), b@),
        decreases a.len() - i,
    {
        let x = &a[i];
        let ghost l0 = landings as int;
        let ghost c0 = crossings as int;
        proof {
            assert(a@.take(i + 1).drop_last() =~= a@.take(i as int));
            assert(a@.take(i + 1).last() == a@[i as int]);
        }
        let mut j: usize = 0;
        while j < b.len()
            invariant
                j <= b@.len(),
                i < a@.len(),
                a@.len() <= MAX_GAP_SPANS,
                b@.len() <= MAX_GAP_SPANS,
                landings <= i * b@.len() + j,
                crossings <= 2 * (i * b@.len() + j),
                *x == a@[i as int],
                landings == l0 + landings_row(*x, b@.take(j as int)),
                crossings == c0 + crossings_row(*x, b@.take(j as int)),
            decreases b.len() - j,
        {
            proof {
                assert(b@.take(j + 1).drop_last() =~= b@.take(j as int));
                assert(b@.take(j + 1).last() == b@[j as int]);
            }
            proof {
                assert(i * b@.len() + j < MAX_GAP_SPANS * MAX_GAP_SPANS) by (nonlinear_arith)
                    requires i < MAX_GAP_SPANS, j < b@.len(), b@.len() <= MAX_GAP_SPANS;
            }
            let y = &b[j];
            // y's entry horizontal runs across x's track.
            if x.lo < y.y_in && y.y_in < x.hi {
                crossings += 1;
            }
            // x's exit horizontal runs across y's track.
            if y.lo < x.y_out && x.y_out < y.hi {
                crossings += 1;
            }
            if x.lo < x.hi && x.y_out == y.y_in {
                landings += 1;
            }
            j += 1;
        }
        proof {
            assert(i * b@.len() + b@.len() == (i + 1) * b@.len()) by (nonlinear_arith);
            assert(b@.take(j as int) =~= b@);
        }
        i += 1;
    }
    proof {
        assert(a@.take(i as int) =~= a@);
        assert(a@.len() * b@.len() <= MAX_GAP_SPANS * MAX_GAP_SPANS) by (nonlinear_arith)
            requires a@.len() <= MAX_GAP_SPANS, b@.len() <= MAX_GAP_SPANS;
        assert(2 * (a@.len() * b@.len()) <= 2 * MAX_GAP_SPANS * MAX_GAP_SPANS);
    }
    (landings, crossings)
}

/// The tracks a gap may hold, each within the gap's run count.
pub open spec fn tracks_small(tracks: Seq<Vec<Span>>) -> bool {
    &&& tracks.len() <= MAX_GAP_SPANS
    &&& forall|t: int| 0 <= t < tracks.len() ==> (#[trigger] tracks[t])@.len() <= MAX_GAP_SPANS
}

/// The cost of track `perm[i]` left of each track `perm[k]` for `i < k < j`.
pub open spec fn pair_sum(tracks: Seq<Vec<Span>>, perm: Seq<usize>, i: int, j: int, part: int) -> int
    decreases j - i,
{
    if j <= i + 1 {
        0
    } else {
        pair_sum(tracks, perm, i, j - 1, part) + if part == 0 {
            landings_all(tracks[perm[i] as int]@, tracks[perm[j - 1] as int]@)
        } else {
            crossings_all(tracks[perm[i] as int]@, tracks[perm[j - 1] as int]@)
        }
    }
}

/// `pair_sum` over every `i` below `m`, with `j` the whole order.
pub open spec fn order_sum(tracks: Seq<Vec<Span>>, perm: Seq<usize>, m: int, part: int) -> int
    decreases m,
{
    if m <= 0 { 0 } else { order_sum(tracks, perm, m - 1, part) + pair_sum(tracks, perm, m - 1, perm.len() as int, part) }
}

/// Sum of `cost` over every ordered pair in the order `perm`.
fn total(tracks: &Vec<Vec<Span>>, perm: &Vec<usize>) -> (c: (u64, u64))
    requires
        tracks_small(tracks@),
        tracks@.len() <= EXACT,
        is_perm(perm@, tracks@.len() as nat),
    ensures
        c.0 == order_sum(tracks@, perm@, perm@.len() as int, 0),
        c.1 == order_sum(tracks@, perm@, perm@.len() as int, 1),
{
    let n = perm.len();
    let mut sum: (u64, u64) = (0, 0);
    let mut i: usize = 0;
    while i < n
        invariant
            i <= n,
            n == perm@.len(),
            n <= EXACT,
            tracks_small(tracks@),
            is_perm(perm@, tracks@.len() as nat),
            sum.0 <= i * n * (MAX_GAP_SPANS * MAX_GAP_SPANS),
            sum.1 <= i * n * (2 * MAX_GAP_SPANS * MAX_GAP_SPANS),
            sum.0 == order_sum(tracks@, perm@, i as int, 0),
            sum.1 == order_sum(tracks@, perm@, i as int, 1),
        decreases n - i,
    {
        let mut j: usize = i + 1;
        let ghost s0 = sum;
        while j < n
            invariant
                i < j <= n,
                i < n,
                n == perm@.len(),
                n <= EXACT,
                tracks_small(tracks@),
                is_perm(perm@, tracks@.len() as nat),
                s0.0 <= i * n * (MAX_GAP_SPANS * MAX_GAP_SPANS),
                s0.1 <= i * n * (2 * MAX_GAP_SPANS * MAX_GAP_SPANS),
                sum.0 <= s0.0 + j * (MAX_GAP_SPANS * MAX_GAP_SPANS),
                sum.1 <= s0.1 + j * (2 * MAX_GAP_SPANS * MAX_GAP_SPANS),
                sum.0 == s0.0 + pair_sum(tracks@, perm@, i as int, j as int, 0),
                sum.1 == s0.1 + pair_sum(tracks@, perm@, i as int, j as int, 1),
            decreases n - j,
        {
            let c = cost(&tracks[perm[i]], &tracks[perm[j]]);
            proof {
                assert((i + 1) * n * (MAX_GAP_SPANS * MAX_GAP_SPANS) <= EXACT * EXACT * (MAX_GAP_SPANS * MAX_GAP_SPANS)) by (nonlinear_arith)
                    requires i < n, n <= EXACT;
                assert(sum.0 + c.0 <= s0.0 + (j + 1) * (MAX_GAP_SPANS * MAX_GAP_SPANS)) by (nonlinear_arith)
                    requires sum.0 <= s0.0 + j * (MAX_GAP_SPANS * MAX_GAP_SPANS), c.0 <= MAX_GAP_SPANS * MAX_GAP_SPANS;
                assert(sum.1 + c.1 <= s0.1 + (j + 1) * (2 * MAX_GAP_SPANS * MAX_GAP_SPANS)) by (nonlinear_arith)
                    requires sum.1 <= s0.1 + j * (2 * MAX_GAP_SPANS * MAX_GAP_SPANS), c.1 <= 2 * MAX_GAP_SPANS * MAX_GAP_SPANS;
                assert(s0.0 + (j + 1) * (MAX_GAP_SPANS * MAX_GAP_SPANS) <= (i + 1) * n * (MAX_GAP_SPANS * MAX_GAP_SPANS)) by (nonlinear_arith)
                    requires s0.0 <= i * n * (MAX_GAP_SPANS * MAX_GAP_SPANS), j < n;
                assert(s0.1 + (j + 1) * (2 * MAX_GAP_SPANS * MAX_GAP_SPANS) <= (i + 1) * n * (2 * MAX_GAP_SPANS * MAX_GAP_SPANS)) by (nonlinear_arith)
                    requires s0.1 <= i * n * (2 * MAX_GAP_SPANS * MAX_GAP_SPANS), j < n;
                assert((i + 1) * n * (2 * MAX_GAP_SPANS * MAX_GAP_SPANS) <= EXACT * EXACT * (2 * MAX_GAP_SPANS * MAX_GAP_SPANS)) by (nonlinear_arith)
                    requires i < n, n <= EXACT;
            }
            sum = (sum.0 + c.0, sum.1 + c.1);
            j += 1;
        }
        proof {
            assert(s0.0 + n * (MAX_GAP_SPANS * MAX_GAP_SPANS) <= (i + 1) * n * (MAX_GAP_SPANS * MAX_GAP_SPANS)) by (nonlinear_arith)
                requires s0.0 <= i * n * (MAX_GAP_SPANS * MAX_GAP_SPANS);
            assert(s0.1 + n * (2 * MAX_GAP_SPANS * MAX_GAP_SPANS) <= (i + 1) * n * (2 * MAX_GAP_SPANS * MAX_GAP_SPANS)) by (nonlinear_arith)
                requires s0.1 <= i * n * (2 * MAX_GAP_SPANS * MAX_GAP_SPANS);
        }
        i += 1;
    }
    sum
}

fn lt2(a: (u64, u64), b: (u64, u64)) -> (r: bool)
    ensures
        r == (a.0 < b.0 || (a.0 == b.0 && a.1 < b.1)),
{
    a.0 < b.0 || (a.0 == b.0 && a.1 < b.1)
}

/// Gaps with this many tracks or fewer try every order.
pub const EXACT: usize = 6;

/// Orders of six tracks.
const EXACT_ORDERS: usize = 720;

/// Rounds of the adjacent-swap descent at most; every swap it makes lowers
/// the total, so it settles long before.
const DESCENT_ROUNDS: usize = 4096;

fn swap_at(p: &mut Vec<usize>, a: usize, b: usize)
    requires
        a < old(p)@.len(),
        b < old(p)@.len(),
        is_perm(old(p)@, old(p)@.len() as nat),
    ensures
        final(p)@ == old(p)@.update(a as int, old(p)@[b as int]).update(b as int, old(p)@[a as int]),
        is_perm(final(p)@, old(p)@.len() as nat),
{
    let x = p[a];
    let y = p[b];
    p.set(a, y);
    p.set(b, x);
    proof {
        let o = old(p)@;
        let n = o.len();
        assert forall|i: int, j: int| 0 <= i < j < n implies #[trigger] p@[i] != #[trigger] p@[j] by {
            let oi = if i == a { b as int } else if i == b { a as int } else { i };
            let oj = if j == a { b as int } else if j == b { a as int } else { j };
            assert(p@[i] == o[oi]);
            assert(p@[j] == o[oj]);
            if oi < oj {
                assert(o[oi] != o[oj]);
            } else if oj < oi {
                assert(o[oj] != o[oi]);
            }
        }
        assert forall|t: int| 0 <= t < n implies #[trigger] holds(p@, t) by {
            assert(holds(o, t));
            let q = choose|q: int| 0 <= q < n && #[trigger] o[q] == t;
            if q == a {
                assert(p@[b as int] == t);
            } else if q == b {
                assert(p@[a as int] == t);
            } else {
                assert(p@[q] == t);
            }
        }
    }
}

/// Some entry of `p` is below the one after it.
pub open spec fn has_ascent(p: Seq<usize>) -> bool {
    exists|k: int| 0 <= k && k + 1 < p.len() && #[trigger] p[k] < p[k + 1]
}

/// `q` agrees with `p` before `m`, is larger at `m`, and ascends after it.
pub open spec fn advanced_at(p: Seq<usize>, q: Seq<usize>, m: int) -> bool {
    &&& 0 <= m < p.len()
    &&& q.len() == p.len()
    &&& forall|k: int| 0 <= k < m ==> #[trigger] q[k] == p[k]
    &&& q[m] > p[m]
    &&& forall|a: int, b: int| m < a <= b < q.len() ==> q[a] <= q[b]
}

/// Advance to the next permutation in lexicographic order; false at the last,
/// which is left as it was.
fn next_permutation(p: &mut Vec<usize>) -> (more: bool)
    requires
        is_perm(old(p)@, old(p)@.len() as nat),
    ensures
        is_perm(final(p)@, old(p)@.len() as nat),
        !more ==> final(p)@ == old(p)@,
        more == has_ascent(old(p)@),
        more ==> exists|m: int| advanced_at(old(p)@, final(p)@, m),
{
    let n = p.len();
    if n < 2 {
        return false;
    }
    let ghost o = p@;
    let mut i: usize = n - 1;
    while i > 0 && p[i - 1] >= p[i]
        invariant
            i < n,
            n == p@.len(),
            p@ == o,
            forall|a: int, b: int| i <= a <= b < n ==> #[trigger] p@[a] >= #[trigger] p@[b],
        decreases i,
    {
        proof {
            assert forall|a: int, b: int| i - 1 <= a <= b < n implies #[trigger] p@[a] >= #[trigger] p@[b] by {
                if a == i - 1 && b > a {
                    assert(p@[i as int] >= p@[b]);
                }
            }
        }
        i -= 1;
    }
    if i == 0 {
        proof {
            assert forall|k: int| 0 <= k && k + 1 < o.len() implies !(#[trigger] o[k] < o[k + 1]) by {
                assert(p@[k] >= p@[k + 1]);
            }
        }
        return false;
    }
    let mut j: usize = n - 1;
    while p[j] <= p[i - 1]
        invariant
            i <= j < n,
            n == p@.len(),
            0 < i,
            p@ == o,
            p@[i as int] > p@[i - 1],
            forall|k: int| j < k < n ==> #[trigger] p@[k] <= p@[i - 1],
        decreases j,
    {
        j -= 1;
    }
    proof {
        assert(o[i - 1] < o[i - 1 + 1]);
    }
    swap_at(p, i - 1, j);
    let ghost t = p@;
    proof {
        assert forall|a: int, b: int| i <= a <= b < n implies #[trigger] t[a] >= #[trigger] t[b] by {
            if a == j && b > j {
                assert(o[b] <= o[i - 1]);
            } else if b == j && a < j {
                assert(o[a] >= o[j as int]);
            } else if a == j && b == j {
            } else {
                assert(o[a] >= o[b]);
            }
        }
    }
    let mut lo: usize = i;
    let mut hi: usize = n - 1;
    while lo < hi
        invariant
            i <= lo,
            hi < n,
            lo + hi == i + n - 1,
            n == p@.len(),
            is_perm(p@, n as nat),
            forall|k: int| 0 <= k < i ==> #[trigger] p@[k] == t[k],
            forall|k: int| i <= k < lo ==> #[trigger] p@[k] == t[i + n - 1 - k],
            forall|k: int| hi < k < n ==> #[trigger] p@[k] == t[i + n - 1 - k],
            forall|k: int| lo <= k <= hi ==> #[trigger] p@[k] == t[k],
        decreases hi + 1 - lo,
    {
        swap_at(p, lo, hi);
        lo += 1;
        hi -= 1;
    }
    proof {
        assert forall|k: int| i <= k < n implies #[trigger] p@[k] == t[i + n - 1 - k] by {
            if lo <= k <= hi {
                assert(k == i + n - 1 - k);
            }
        }
        assert forall|a: int, b: int| i - 1 < a <= b < p@.len() implies p@[a] <= p@[b] by {
            assert(p@[a] == t[i + n - 1 - a]);
            assert(p@[b] == t[i + n - 1 - b]);
            assert(t[i + n - 1 - b] >= t[i + n - 1 - a]);
        }
        assert(p@[i - 1] == t[i - 1]);
        assert(advanced_at(o, p@, i - 1));
    }
    true
}

fn identity(n: usize) -> (p: Vec<usize>)
    ensures
        is_perm(p@, n as nat),
{
    let mut p: Vec<usize> = Vec::new();
    let mut k: usize = 0;
    while k < n
        invariant
            k <= n,
            p@.len() == k,
            forall|x: int| 0 <= x < k ==> #[trigger] p@[x] == x,
        decreases n - k,
    {
        p.push(k);
        k += 1;
    }
    proof {
        assert forall|t: int| 0 <= t < n implies #[trigger] holds(p@, t) by {
            assert(p@[t] == t);
        }
    }
    p
}

fn copy_perm(p: &Vec<usize>) -> (out: Vec<usize>)
    ensures
        out@ == p@,
{
    let mut out: Vec<usize> = Vec::new();
    let mut k: usize = 0;
    while k < p.len()
        invariant
            k <= p@.len(),
            out@ == p@.take(k as int),
        decreases p.len() - k,
    {
        out.push(p[k]);
        proof {
            assert(out@ =~= p@.take(k + 1));
        }
        k += 1;
    }
    proof {
        assert(p@.take(k as int) =~= p@);
    }
    out
}

/// Order the tracks left to right: no landing on another run's corner where
/// any order avoids it, then the fewest crossings (a linear ordering
/// problem). Every permutation for small gaps, an adjacent-swap descent
/// beyond; ties keep the earlier order.
fn order_tracks(tracks: &Vec<Vec<Span>>) -> (perm: Vec<usize>)
    requires
        tracks_small(tracks@),
    ensures
        is_perm(perm@, tracks@.len() as nat),
{
    let n = tracks.len();
    let mut perm = identity(n);
    if n <= EXACT {
        let mut best_cost = total(tracks, &perm);
        let mut best = copy_perm(&perm);
        let mut budget: usize = EXACT_ORDERS;
        while budget > 0 && next_permutation(&mut perm)
            invariant
                n == tracks@.len(),
                n <= EXACT,
                tracks_small(tracks@),
                is_perm(perm@, n as nat),
                is_perm(best@, n as nat),
            decreases budget,
        {
            let c = total(tracks, &perm);
            if lt2(c, best_cost) {
                best_cost = c;
                best = copy_perm(&perm);
            }
            budget -= 1;
        }
        return best;
    }
    let mut improved = true;
    let mut rounds: usize = 0;
    while improved && rounds < DESCENT_ROUNDS
        invariant
            n == tracks@.len(),
            n > EXACT,
            tracks_small(tracks@),
            is_perm(perm@, n as nat),
        decreases DESCENT_ROUNDS - rounds,
    {
        improved = false;
        let mut i: usize = 0;
        while i + 1 < n
            invariant
                i < n,
                n == tracks@.len(),
                n > EXACT,
                tracks_small(tracks@),
                is_perm(perm@, n as nat),
            decreases n - i,
        {
            let a = perm[i];
            let b = perm[i + 1];
            if lt2(cost(&tracks[b], &tracks[a]), cost(&tracks[a], &tracks[b])) {
                swap_at(&mut perm, i, i + 1);
                improved = true;
            }
            i += 1;
        }
        rounds += 1;
    }
    perm
}

} // verus!
