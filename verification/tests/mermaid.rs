use nfctl::mermaid_in::{ImportError, from_mermaid};
use nfctl::model::{VertexKind, VertexName};
use nfctl::dot::to_dot;
use nfctl::render::{Format, RenderOptions, Rendered, render, render_with};

const SAMPLE: &str = r#"graph LR
  subgraph p1__cluster["p1"]
    p1__in(["in"])
    p1__hot_0["hot-0"]
    p1__hot_1["hot-1"]
    p1__agg{{"agg"}}
    p1__out[["out"]]
    p1__in -->|t1-0| p1__hot_0
    p1__in -->|t1-1| p1__hot_1
    p1__hot_0 --> p1__agg
    p1__hot_1 --> p1__agg
    p1__agg -->|x1:v7, t2| p1__out
  end
  subgraph p2__cluster["p2"]
    p2__source(["source"])
    p2__sink[["sink"]]
    p2__source --> p2__sink
  end
  ext__1("ext1") -.-> p2__source
  p1__out -.->|topic1| p2__source
  %% comment
  style p1__in fill:#000
"#;

#[test]
fn imports_one_topology_per_subgraph() {
    let got = from_mermaid(SAMPLE).unwrap();
    assert_eq!(got.len(), 2);
    let (name, t) = &got[0];
    assert_eq!(name, "p1");
    assert_eq!(t.vertices().len(), 5);
    assert_eq!(t.edges().len(), 5);
    let agg = t.vertex(&VertexName::new("agg").unwrap()).unwrap();
    assert_eq!(agg.kind, VertexKind::Reduce);
    let last = &t.edges()[4];
    assert_eq!(last.conditions.as_ref().unwrap().values, vec!["x1:v7", "t2"]);
    assert_eq!(got[1].1.edges().len(), 1, "dotted and external edges are dropped");
}

#[test]
fn rejects_non_flowcharts() {
    assert!(matches!(from_mermaid("sequenceDiagram\n A->>B: hi"), Err(ImportError::NotAFlowchart)));
}

#[test]
fn round_trips_our_own_emitter() {
    let (_, t) = from_mermaid(SAMPLE).unwrap().remove(0);
    let text = nfctl::mermaid::to_mermaid(&t, nfctl::mermaid::Direction::LeftRight);
    let back = from_mermaid(&text).unwrap().remove(0).1;
    assert_eq!(back, t);
}

fn sample_p1() -> nfctl::model::Topology {
    from_mermaid(SAMPLE).unwrap().remove(0).1
}

#[test]
fn emits_shapes_ids_and_conditions() {
    let text = nfctl::mermaid::to_mermaid(&sample_p1(), nfctl::mermaid::Direction::TopDown);
    let want = "flowchart TD\n  in([\"in\"])\n  hot_0[\"hot-0\"]\n  hot_1[\"hot-1\"]\n  agg{{\"agg\"}}\n  out[[\"out\"]]\n  in -->|t1-0| hot_0\n  in -->|t1-1| hot_1\n  hot_0 --> agg\n  hot_1 --> agg\n  agg -->|x1:v7, t2| out\n";
    assert_eq!(text, want);
}

#[test]
fn view_emitter_names_shard_groups() {
    let src = "graph LR\n subgraph p[\"p\"]\ns([s]) --> w-0[w-0]\n s --> w-1[w-1]\n end\n";
    let t = from_mermaid(src).unwrap().remove(0).1;
    let g = nfctl::view::ViewGraph::collapsed(&t);
    let text = nfctl::mermaid::view_to_mermaid(&g, nfctl::mermaid::Direction::LeftRight);
    assert_eq!(text, "flowchart LR\n  s([\"s\"])\n  w_x2[\"w \u{d7}2\"]\n  s --> w_x2\n");
}

#[test]
fn dot_shapes_labels_and_dashes() {
    let src = "graph LR\n subgraph p[\"p\"]\na([a]) -->|x, y| b{{b}}\n b -.-> c[[c]]\n end\n";
    let got = from_mermaid(src).unwrap().remove(0).1;
    let text = nfctl::dot::to_dot(&got);
    assert!(text.starts_with("digraph pipeline {\n  rankdir=LR;\n  node [fontname=\"monospace\"];\n"));
    assert!(text.contains("  \"a\" [shape=cds];\n"));
    assert!(text.contains("  \"b\" [shape=hexagon];\n"));
    assert!(text.contains("  \"c\" [shape=box3d];\n"));
    assert!(text.contains("  \"a\" -> \"b\" [label=\"x | y\"];\n"));
    assert!(text.ends_with("}\n"));
}

#[test]
fn render_picks_the_text_for_each_format() {
    let t = from_mermaid("graph LR\n subgraph p[\"p\"]\n s([s]) --> w-0[w-0]\n s --> w-1[w-1]\n end\n").unwrap().remove(0).1;
    match render(&t, Format::Dot, None) {
        Rendered::Text(s) => assert_eq!(s, to_dot(&t)),
        Rendered::Ascii { .. } => panic!("dot is text"),
    }
    match render(&t, Format::Mermaid, Some(80)) {
        Rendered::Text(s) => assert!(s.starts_with("flowchart LR\n"), "{s}"),
        Rendered::Ascii { .. } => panic!("mermaid is text"),
    }
    let opts = RenderOptions { width: Some(100), collapse_shards: true, colour: true };
    match render_with(&t, Format::Ascii, opts) {
        Rendered::Ascii { view, width, colour } => {
            assert_eq!(view.nodes.len(), 2, "the shards are one node");
            assert_eq!((width, colour), (Some(100), true));
        }
        Rendered::Text(_) => panic!("ascii is drawn by the caller"),
    }
}
