use nfctl::layout::rank::rank;
use nfctl::mermaid_in::from_mermaid;
use nfctl::view::ViewGraph;

fn graph(body: &str) -> ViewGraph {
    let src = format!("graph LR\n subgraph p[\"p\"]\n{body}\n end\n");
    let t = from_mermaid(&src).unwrap().remove(0).1;
    ViewGraph::collapsed(&t)
}

fn rank_of(g: &ViewGraph, ranks: &[usize], label: &str) -> usize {
    ranks[g.nodes.iter().position(|n| n.label == label).unwrap()]
}

#[test]
fn ranks_are_longest_paths_from_the_sources() {
    // s reaches t directly and through m: t sits one column past m.
    let g = graph("s([s]) --> m[m]\n m --> t[[t]]\n s --> t");
    let r = rank(&g);
    assert_eq!(rank_of(&g, &r.rank, "s"), 0);
    assert_eq!(rank_of(&g, &r.rank, "m"), 1);
    assert_eq!(rank_of(&g, &r.rank, "t"), 2);
    assert!(r.back.iter().all(|b| !b));
}

#[test]
fn a_cycle_turns_exactly_one_edge_back() {
    let g = graph("s([s]) --> a[a]\n a --> b[b]\n b --> a\n b --> t[[t]]");
    let r = rank(&g);
    assert_eq!(r.back.iter().filter(|b| **b).count(), 1);
    let back = r.back.iter().position(|b| *b).unwrap();
    let e = &g.edges[back];
    assert_eq!(g.nodes[e.from.0 as usize].label, "b");
    assert_eq!(g.nodes[e.to.0 as usize].label, "a");
    assert_eq!(rank_of(&g, &r.rank, "s"), 0);
    assert_eq!(rank_of(&g, &r.rank, "a"), 1);
    assert_eq!(rank_of(&g, &r.rank, "b"), 2);
    assert_eq!(rank_of(&g, &r.rank, "t"), 3);
}
