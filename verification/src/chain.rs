//! The container chain drawn inside a MonoVertex card: the stages a message
//! passes through, how wide the chain is drawn in each style, which style
//! fits the room, and the replica badge on the card's border.

use vstd::prelude::*;

use crate::cards::{text_width, text_width_of};
use crate::dto::monovertex::MonoVertex;
use crate::text::{push_all, push_str};
use crate::view::{dec, dec_chars};

verus! {

/// Blank columns between the card's frame and the chain inside it.
pub const PAD: usize = 3;

/// What joins one stage to the next.
pub const HOP: &'static str = "──▶";

/// Blank columns inside a stage's own box, either side of its label.
pub const BOX_PAD: usize = 1;

/// How the chain is drawn.
#[derive(Debug, Clone, Copy, PartialEq, Eq, Structural)]
pub struct Step {
    /// Abbreviated wording (`src`) rather than spelled out (`source`).
    pub short: bool,
    /// Each stage in a box of its own.
    pub boxed: bool,
}

/// The styles in the order they are tried, widest first: spelled out and
/// boxed, abbreviated and boxed, abbreviated and bare.
pub open spec fn rung_spec(k: int) -> Step {
    if k == 0 {
        Step { short: false, boxed: true }
    } else if k == 1 {
        Step { short: true, boxed: true }
    } else {
        Step { short: true, boxed: false }
    }
}

/// Rungs of the ladder.
pub const RUNGS: usize = 3;

/// Rung `k` of the ladder.
pub fn rung(k: usize) -> (s: Step)
    ensures
        s == rung_spec(k as int),
{
    if k == 0 {
        Step { short: false, boxed: true }
    } else if k == 1 {
        Step { short: true, boxed: true }
    } else {
        Step { short: true, boxed: false }
    }
}

/// The container chain, in the order a message passes through it: the
/// source, the transformer and the map when there are any, the sink, and
/// the fallback hanging off it; abbreviated when `short`.
pub open spec fn stages_spec(m: MonoVertex, short: bool) -> Seq<Seq<char>> {
    seq![if short { "src"@ } else { "source"@ }] + (if m.has_transformer {
        seq![if short { "trf"@ } else { "transform"@ }]
    } else {
        Seq::empty()
    }) + (if m.has_map {
        seq!["map"@]
    } else {
        Seq::empty()
    }) + seq!["sink"@] + (if m.has_fallback {
        seq![if short { "fb"@ } else { "fallback"@ }]
    } else {
        Seq::empty()
    })
}

/// The container chain of `m`, in the order a message passes through it.
pub fn stages(m: &MonoVertex, short: bool) -> (out: Vec<&'static str>)
    ensures
        out@.map_values(|s: &str| s@) == stages_spec(*m, short),
        2 <= out@.len() <= 5,
{
    let mut s: Vec<&'static str> = Vec::new();
    s.push(if short { "src" } else { "source" });
    if m.has_transformer {
        s.push(if short { "trf" } else { "transform" });
    }
    if m.has_map {
        s.push("map");
    }
    s.push("sink");
    if m.has_fallback {
        s.push(if short { "fb" } else { "fallback" });
    }
    proof {
        assert(s@.map_values(|s: &str| s@) =~= stages_spec(*m, short));
    }
    s
}

/// The sum of the first `k` widths, each with `extra` added.
pub open spec fn sum_plus(ws: Seq<int>, extra: int, k: int) -> int
    decreases k,
{
    if k <= 0 {
        0
    } else {
        sum_plus(ws, extra, k - 1) + ws[k - 1] + extra
    }
}

/// How wide a hop is drawn: it abuts the boxes when there are boxes, and
/// takes a blank either side of a bare label.
pub open spec fn hop_width_spec(step: Step, hop: int) -> int {
    if step.boxed {
        hop
    } else {
        hop + 2
    }
}

/// How wide a chain of labels `ws` columns wide is drawn: each label, with
/// a border and a blank either side when boxed, and a hop between each two.
pub open spec fn chain_width_spec(ws: Seq<int>, step: Step, hop: int) -> int {
    sum_plus(ws, if step.boxed { (1 + BOX_PAD) * 2 } else { 0 }, ws.len() as int) + (ws.len() - 1)
        * hop_width_spec(step, hop)
}

/// The widths of the stages' labels.
pub open spec fn stage_widths_spec(m: MonoVertex, short: bool) -> Seq<int> {
    stages_spec(m, short).map_values(|s: Seq<char>| text_width_of(s) as int)
}

/// The first rung from `k` on whose chain fits in `room` with the card's
/// frame and padding, or the narrowest when none does.
pub open spec fn step_from(m: MonoVertex, room: int, hop: int, k: int) -> Step
    decreases RUNGS - k,
{
    if k >= RUNGS - 1 {
        rung_spec(RUNGS - 1)
    } else if chain_width_spec(stage_widths_spec(m, rung_spec(k).short), rung_spec(k), hop) + PAD * 2 + 2
        <= room {
        rung_spec(k)
    } else {
        step_from(m, room, hop, k + 1)
    }
}

/// The widths a chain is measured from stay small enough that measuring it
/// never overflows.
pub open spec fn measurable(m: MonoVertex, hop: int) -> bool {
    &&& 0 <= hop <= 0x10000
    &&& forall|short: bool, i: int|
        0 <= i < stages_spec(m, short).len() ==> #[trigger] text_width_of(stages_spec(m, short)[i]) <= 0x10000
}

/// The widths of the stages' labels, as the terminal counts them.
fn stage_widths(m: &MonoVertex, short: bool) -> (out: Vec<usize>)
    ensures
        out@.map_values(|w: usize| w as int) == stage_widths_spec(*m, short),
{
    let labels = stages(m, short);
    let mut out: Vec<usize> = Vec::new();
    let mut i: usize = 0;
    while i < labels.len()
        invariant
            i <= labels@.len(),
            labels@.map_values(|s: &str| s@) == stages_spec(*m, short),
            out@.len() == i,
            forall|j: int| 0 <= j < i ==> out@[j] == text_width_of(stages_spec(*m, short)[j]),
        decreases labels.len() - i,
    {
        let w = text_width(labels[i]);
        proof {
            assert(labels@.map_values(|s: &str| s@)[i as int] == labels@[i as int]@);
        }
        out.push(w);
        i += 1;
    }
    proof {
        assert(out@.map_values(|w: usize| w as int) =~= stage_widths_spec(*m, short));
    }
    out
}

/// `sum_plus` grows by each width and stays within its bound.
proof fn lemma_sum_plus_bound(ws: Seq<int>, extra: int, k: int)
    requires
        0 <= k <= ws.len(),
        0 <= extra,
        forall|i: int| 0 <= i < ws.len() ==> 0 <= #[trigger] ws[i] <= 0x10000,
    ensures
        0 <= sum_plus(ws, extra, k) <= k * (0x10000 + extra),
    decreases k,
{
    if k > 0 {
        lemma_sum_plus_bound(ws, extra, k - 1);
        assert(k * (0x10000 + extra) == (k - 1) * (0x10000 + extra) + 0x10000 + extra) by (nonlinear_arith);
    }
}

/// How wide the chain of labels `ws` is drawn in style `step`, with hops
/// `hop` columns wide.
pub fn chain_width(ws: &Vec<usize>, step: Step, hop: usize) -> (w: usize)
    requires
        1 <= ws@.len() <= 5,
        hop <= 0x10000,
        forall|i: int| 0 <= i < ws@.len() ==> #[trigger] ws@[i] <= 0x10000,
    ensures
        w == chain_width_spec(ws@.map_values(|x: usize| x as int), step, hop as int),
        w <= 0x100000,
{
    let ghost v = ws@.map_values(|x: usize| x as int);
    let per_box: usize = if step.boxed { (1 + BOX_PAD) * 2 } else { 0 };
    proof {
        lemma_sum_plus_bound(v, per_box as int, v.len() as int);
    }
    let mut total: usize = 0;
    let mut i: usize = 0;
    while i < ws.len()
        invariant
            i <= ws@.len(),
            ws@.len() <= 5,
            v == ws@.map_values(|x: usize| x as int),
            per_box <= 4,
            forall|j: int| 0 <= j < ws@.len() ==> #[trigger] ws@[j] <= 0x10000,
            total == sum_plus(v, per_box as int, i as int),
            0 <= sum_plus(v, per_box as int, v.len() as int) <= v.len() * (0x10000 + per_box),
        decreases ws.len() - i,
    {
        proof {
            lemma_sum_plus_bound(v, per_box as int, i + 1);
            assert((i + 1) * (0x10000 + per_box) <= 5 * (0x10000 + 4)) by (nonlinear_arith)
                requires
                    i + 1 <= 5,
                    per_box <= 4,
            ;
        }
        total = total + ws[i] + per_box;
        i += 1;
    }
    assert(v.len() * (0x10000 + per_box) <= 5 * (0x10000 + 4)) by (nonlinear_arith)
        requires
            v.len() <= 5,
            per_box <= 4,
    ;
    let hop_w: usize = if step.boxed { hop } else { hop + 2 };
    assert((ws.len() - 1) * hop_w <= 4 * 0x10002) by (nonlinear_arith)
        requires
            ws.len() <= 5,
            ws.len() >= 1,
            hop_w <= 0x10002,
    ;
    total + (ws.len() - 1) * hop_w
}

/// The style the chain of `m` is drawn in within `room` columns: the widest
/// rung of the ladder whose chain fits inside the card's frame and padding,
/// or the narrowest when none does.
pub fn step_for(m: &MonoVertex, room: usize) -> (s: Step)
    requires
        measurable(*m, text_width_of(HOP@) as int),
    ensures
        s == step_from(*m, room as int, text_width_of(HOP@) as int, 0),
{
    let hop = text_width(HOP);
    let mut k: usize = 0;
    while k < RUNGS - 1
        invariant
            k <= RUNGS - 1,
            hop == text_width_of(HOP@),
            measurable(*m, hop as int),
            step_from(*m, room as int, hop as int, k as int) == step_from(*m, room as int, hop as int, 0),
        decreases RUNGS - 1 - k,
    {
        let step = rung(k);
        let ws = stage_widths(m, step.short);
        proof {
            assert forall|i: int| 0 <= i < ws@.len() implies #[trigger] ws@[i] <= 0x10000 by {
                assert(ws@.map_values(|w: usize| w as int)[i] == ws@[i]);
                assert(text_width_of(stages_spec(*m, step.short)[i]) <= 0x10000);
            }
        }
        let w = chain_width(&ws, step, hop);
        if w + PAD * 2 + 2 <= room {
            return step;
        }
        k += 1;
    }
    rung(RUNGS - 1)
}

/// `step_for` where measuring the chain cannot overflow, `None` elsewhere.
pub fn try_step_for(m: &MonoVertex, room: usize) -> (r: Option<Step>)
    ensures
        r is Some <==> measurable(*m, text_width_of(HOP@) as int),
        r matches Some(s) ==> s == step_from(*m, room as int, text_width_of(HOP@) as int, 0),
{
    let hop = text_width(HOP);
    if hop > 0x10000 {
        return None;
    }
    let full = stage_widths(m, false);
    let short = stage_widths(m, true);
    proof {
        assert(full@.map_values(|w: usize| w as int).len() == stages_spec(*m, false).len());
        assert(short@.map_values(|w: usize| w as int).len() == stages_spec(*m, true).len());
    }
    let mut i: usize = 0;
    while i < full.len()
        invariant
            i <= full@.len(),
            full@.map_values(|w: usize| w as int) == stage_widths_spec(*m, false),
            full@.len() == stages_spec(*m, false).len(),
            forall|j: int| 0 <= j < i ==> #[trigger] text_width_of(stages_spec(*m, false)[j]) <= 0x10000,
        decreases full.len() - i,
    {
        proof {
            assert(full@.map_values(|w: usize| w as int)[i as int] == full@[i as int]);
            assert(stage_widths_spec(*m, false)[i as int] == text_width_of(stages_spec(*m, false)[i as int]));
        }
        if full[i] > 0x10000 {
            proof {
                assert(text_width_of(stages_spec(*m, false)[i as int]) > 0x10000);
            }
            return None;
        }
        i += 1;
    }
    let mut i: usize = 0;
    while i < short.len()
        invariant
            i <= short@.len(),
            short@.map_values(|w: usize| w as int) == stage_widths_spec(*m, true),
            short@.len() == stages_spec(*m, true).len(),
            forall|j: int| 0 <= j < i ==> #[trigger] text_width_of(stages_spec(*m, true)[j]) <= 0x10000,
        decreases short.len() - i,
    {
        proof {
            assert(short@.map_values(|w: usize| w as int)[i as int] == short@[i as int]);
            assert(stage_widths_spec(*m, true)[i as int] == text_width_of(stages_spec(*m, true)[i as int]));
        }
        if short[i] > 0x10000 {
            proof {
                assert(text_width_of(stages_spec(*m, true)[i as int]) > 0x10000);
            }
            return None;
        }
        i += 1;
    }
    proof {
        assert forall|s: bool, j: int| 0 <= j < stages_spec(*m, s).len() implies #[trigger] text_width_of(stages_spec(*m, s)[j])
            <= 0x10000 by {
            if s {
                assert(short@.map_values(|w: usize| w as int).len() == stages_spec(*m, true).len());
            } else {
                assert(full@.map_values(|w: usize| w as int).len() == stages_spec(*m, false).len());
            }
        }
    }
    Some(step_for(m, room))
}

/// The card's inner width: wide enough for the name, the chain and both
/// badges on its border, and never wider than the room it has.
pub open spec fn card_inner_spec(name_w: int, chain: int, badge_w: int, flow_w: int, room: int) -> int {
    let inner = (if name_w > chain { name_w } else { chain }) + PAD * 2;
    let inner = if inner > badge_w + flow_w + 8 { inner } else { badge_w + flow_w + 8 };
    let cap = if room >= 2 { room - 2 } else { 0 };
    if inner < cap { inner } else { cap }
}

/// The card's inner width for a name `name_w` columns wide, a chain `chain`
/// wide, a replica badge `badge_w` wide and a throughput `flow_w` wide, in
/// `room` columns.
pub fn card_inner(name_w: usize, chain: usize, badge_w: usize, flow_w: usize, room: usize) -> (w: usize)
    requires
        (if name_w > chain { name_w } else { chain }) + PAD * 2 <= usize::MAX,
        badge_w + flow_w + 8 <= usize::MAX,
    ensures
        w == card_inner_spec(name_w as int, chain as int, badge_w as int, flow_w as int, room as int),
{
    let inner = (if name_w > chain { name_w } else { chain }) + PAD * 2;
    let badges = badge_w + flow_w + 8;
    let inner = if inner > badges { inner } else { badges };
    let cap = if room >= 2 { room - 2 } else { 0 };
    if inner < cap { inner } else { cap }
}

/// `×N` when every replica is ready or readiness is not reported, `×R/N`
/// when some are not.
pub open spec fn replicas_spec(ready: Option<u32>, replicas: u32) -> Seq<char> {
    match ready {
        Some(r) => if r == replicas {
            "×"@ + dec(replicas as nat)
        } else {
            "×"@ + dec(r as nat) + "/"@ + dec(replicas as nat)
        },
        None => "×"@ + dec(replicas as nat),
    }
}

/// The replica badge of `m`.
pub fn replicas(m: &MonoVertex) -> (s: String)
    ensures
        s@ == replicas_spec(m.ready_replicas, m.replicas),
{
    let mut s = String::new();
    push_str(&mut s, "×");
    match m.ready_replicas {
        Some(r) => {
            if r == m.replicas {
                push_all(&mut s, &dec_chars(m.replicas));
            } else {
                push_all(&mut s, &dec_chars(r));
                push_str(&mut s, "/");
                push_all(&mut s, &dec_chars(m.replicas));
            }
        },
        None => push_all(&mut s, &dec_chars(m.replicas)),
    }
    s
}

} // verus!
