use nfctl::layout::score::{Score, score};
use nfctl::layout::{Bundling, EdgeColour, EdgeId, Layout, LayoutOptions, Route, layout};
use nfctl::mermaid_in::from_mermaid;
use nfctl::view::ViewGraph;

const OPTS: LayoutOptions = LayoutOptions {
    bundling: Bundling::Spread,
    card_w: 18,
    card_h: 5,
};

fn scored(body: &str) -> Score {
    let src = format!("graph LR\n subgraph p[\"p\"]\n{body}\n end\n");
    let t = from_mermaid(&src).unwrap().remove(0).1;
    let g = ViewGraph::expanded(&t);
    score(&g, &layout(&g, OPTS))
}

#[test]
fn linear_chain_is_perfect() {
    let s = scored("a([a]) --> b[b]\n b --> c[[c]]");
    assert_eq!(s.vocabulary(), [0, 0, 0, 0, 0]);
    assert_eq!((s.crossings, s.asymmetry, s.detour, s.mixed_cells), (0, 0, 0, 0));
    assert!(s.edges.iter().all(|e| e.bends == 0));
    assert_eq!(s.total, 0);
}

#[test]
fn symmetric_fan_out_scores_zero_asymmetry() {
    let s = scored("s([s]) -->|a| x[x]\n s -->|b| y[y]\n s -->|c| z[z]");
    assert_eq!(s.asymmetry, 0);
    // A branch is a Z: out, along the bus, in.
    assert!(s.edges.iter().all(|e| e.bends <= 2));
    assert_eq!(s.junction_over, 0);
    assert!(s.edges.iter().all(|e| e.forks <= 1));
    assert_eq!(s.overlaps, 0);
    // The bus carries three colours through the shared stub and junction.
    assert!(s.mixed_cells > 0);
}

#[test]
fn fan_in_is_one_join_per_edge() {
    let s = scored("a([a]) --> k[[k]]\n b([b]) --> k\n c([c]) --> k");
    assert!(s.edges.iter().all(|e| e.joins <= 1 && e.forks == 0));
    assert_eq!(s.overlaps, 0);
}

#[test]
fn skip_edge_is_a_z_at_worst_and_back_edge_is_counted_apart() {
    let s = scored("s([s]) --> m[m]\n m --> t[[t]]\n s --> t");
    let skip = s.edges.iter().find(|e| e.span == 2).unwrap();
    assert_eq!(skip.allowed, 4);
    assert!(skip.bends <= 4, "{skip:?}");
    assert_eq!(s.bends_over_fwd + s.bends_over_skip, 0);
    let s = scored("s([s]) --> a[a]\n a --> b[b]\n b --> a\n b --> t[[t]]");
    let back: Vec<_> = s.edges.iter().filter(|e| e.back).collect();
    assert_eq!(back.len(), 1);
    assert!(back[0].bends <= 4);
    assert_eq!(s.bends_over_back, 0);
}

#[test]
fn deterministic() {
    let body = "a([a]) --> y[y]\n b([b]) --> x[x]\n a --> x\n b --> y\n x --> e[[e]]\n y --> e";
    assert_eq!(scored(body), scored(body));
}

#[test]
fn soft_tier_sums_crossings_asymmetry_and_detour() {
    let s = scored("a([a]) --> y[y]\n b([b]) --> x[x]\n a --> x\n b --> y");
    assert_eq!(s.soft(), s.crossings as i64 + i64::from(s.asymmetry) + i64::from(s.detour));
    assert_eq!(
        s.total,
        10 * (s.bends_over_fwd + s.bends_over_skip + s.bends_over_back) as i64
            + 10 * s.junction_over as i64
            + 5 * s.overlaps as i64
            + 3 * s.crossings as i64
            + 2 * i64::from(s.asymmetry)
            + i64::from(s.detour)
    );
}

#[test]
fn score_line_pads_every_count() {
    let s = scored("s([s]) --> a[a]\n s --> b[b]\n a --> t[[t]]\n b --> t\n s --> t");
    let expected = format!(
        "bends>2 {:>2}  skip>4 {:>2}  back>4 {:>2}  junc>1 {:>2}  overlap {:>3}  cross {:>3}  asym {:>3}  detour {:>3}  mixed {:>3}  gap± {:>2}  scatter {:>3}  {}x{}  total {:>4}",
        s.bends_over_fwd,
        s.bends_over_skip,
        s.bends_over_back,
        s.junction_over,
        s.overlaps,
        s.crossings,
        s.asymmetry,
        s.detour,
        s.mixed_cells,
        s.gap_spread,
        s.scatter,
        s.width,
        s.height,
        s.total
    );
    assert_eq!(s.to_string(), expected);
    assert!(s.to_string().starts_with("bends>2  0  skip>4  0"), "{}", s.to_string());
}

fn two_lines_crossing() -> (ViewGraph, Layout) {
    let t = from_mermaid("graph LR\n subgraph p[\"p\"]\n a --> b\n c --> d\n end\n").unwrap().remove(0).1;
    let g = ViewGraph::expanded(&t);
    let l = Layout {
        columns: Vec::new(),
        col_x: Vec::new(),
        cards: Vec::new(),
        gaps: Vec::new(),
        routes: vec![
            Route { edge: EdgeId(0), polyline: vec![(0, 2), (10, 2)], head: (10, 2), colour: None },
            Route { edge: EdgeId(1), polyline: vec![(5, 0), (5, 4)], head: (5, 4), colour: None },
        ],
        lanes: 0,
        badges: Vec::new(),
        width: 11,
        height: 5,
    };
    (g, l)
}

#[test]
fn a_crossing_counts_once_and_on_both_edges() {
    let (g, l) = two_lines_crossing();
    assert_eq!(g.edges.len(), 2);
    let s = score(&g, &l);
    assert_eq!(s.crossings, 1);
    assert_eq!((s.edges[0].crossings, s.edges[1].crossings), (1, 1));
    let per_edge: usize = s.edges.iter().map(|e| e.crossings).sum();
    assert_eq!(per_edge, 2 * s.crossings);
    assert_eq!(s.overlaps, 0);
    assert_eq!(s.vocabulary(), [0, 0, 0, 0, 0]);
    assert_eq!(s.mixed_cells, 0);
    assert_eq!((s.asymmetry, s.detour), (0, 0));
    assert_eq!(s.total, 3);
    assert_eq!((s.height, s.width), (5, 11));
}

#[test]
fn two_colours_meeting_make_one_mixed_cell() {
    let (g, mut l) = two_lines_crossing();
    l.routes[0].colour = Some(EdgeColour(1));
    l.routes[1].colour = Some(EdgeColour(2));
    assert_eq!(score(&g, &l).mixed_cells, 1);
    // The same colour on both: the cell is shared but not mixed.
    l.routes[1].colour = Some(EdgeColour(1));
    assert_eq!(score(&g, &l).mixed_cells, 0);
}
