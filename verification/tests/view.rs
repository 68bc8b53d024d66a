use nfctl::mermaid_in::from_mermaid;
use nfctl::model::Topology;
use nfctl::model::{TagCondition, TagOperator};
use nfctl::view::{ViewGraph, tag_label};
use nfctl::layout::NodeId;

fn topo(body: &str) -> Topology {
    let src = format!("graph LR\n subgraph p[\"p\"]\n{body}\n end\n");
    from_mermaid(&src).unwrap().remove(0).1
}

fn node(g: &ViewGraph, label: &str) -> NodeId {
    NodeId(u32::try_from(g.nodes.iter().position(|n| n.label == label).unwrap()).unwrap())
}

#[test]
fn shards_collapse_into_one_node() {
    let g = ViewGraph::collapsed(&topo(
        "s([s]) --> w-0[w-0]\n s --> w-1[w-1]\n s --> w-2[w-2]\n w-0 --> t[[t]]\n w-1 --> t\n w-2 --> t",
    ));
    assert_eq!(g.nodes.len(), 3);
    let w = &g.nodes[node(&g, "w ×3").0 as usize];
    assert_eq!(w.members.len(), 3);
    assert_eq!(g.edges.len(), 2);
    assert_eq!(g.edges[0].members.len(), 3);
    let expanded = ViewGraph::expanded(&topo("s([s]) --> w-0[w-0]\n s --> w-1[w-1]"));
    assert_eq!(expanded.nodes.len(), 3);
}

#[test]
fn shard_tags_carrying_the_index_normalise() {
    let g = ViewGraph::collapsed(&topo(
        "s([s]) -->|route-0| w-0[w-0]\n s -->|route-1| w-1[w-1]\n o([o]) -->|other| w-1",
    ));
    assert_eq!(g.nodes.len(), 4, "different neighbourhoods, no group");
    let g = ViewGraph::collapsed(&topo("s([s]) -->|route-0| w-0[w-0]\n s -->|route-1| w-1[w-1]"));
    assert_eq!(g.nodes.len(), 2);
    assert_eq!(g.edges.len(), 1);
    assert_eq!(g.edges[0].tags, ["route-*"]);
    assert_eq!(g.edges[0].members.len(), 2);
}

#[test]
fn shards_with_different_neighbours_stay_apart() {
    let g = ViewGraph::collapsed(&topo("s([s]) --> w-0[w-0]\n s --> w-1[w-1]\n w-0 --> t[[t]]"));
    assert_eq!(g.nodes.len(), 4);
    let g = ViewGraph::collapsed(&topo("s([s]) -->|x| w-0[w-0]\n s -->|y| w-1[w-1]"));
    assert_eq!(g.nodes.len(), 3);
    let g = ViewGraph::collapsed(&topo("s([s]) --> w-0[w-0]\n s --> w-1{{w-1}}"));
    assert_eq!(g.nodes.len(), 3);
}

#[test]
fn tag_labels_read_like_the_condition() {
    let values = || vec!["even".to_owned(), "odd".to_owned()];
    assert_eq!(tag_label(&TagCondition { operator: TagOperator::Or, values: values() }), "even, odd");
    assert_eq!(tag_label(&TagCondition { operator: TagOperator::And, values: values() }), "even & odd");
    assert_eq!(tag_label(&TagCondition { operator: TagOperator::Not, values: values() }), "not even, not odd");
    assert_eq!(tag_label(&TagCondition { operator: TagOperator::Or, values: vec![] }), "");
}
