use nfctl::model::{Edge, OnFull, ScaleSpec, TagCondition, TagOperator, Topology, Vertex, VertexKind, VertexName};
use nfctl::render::{Format, RenderOptions, Rendered, render, render_with};

fn v(name: &str, kind: VertexKind) -> Vertex {
    Vertex { name: VertexName::new(name).unwrap(), kind, partitions: 1, scale: ScaleSpec::default(), image: None }
}

fn e(from: &str, to: &str) -> Edge {
    Edge {
        from: VertexName::new(from).unwrap(),
        to: VertexName::new(to).unwrap(),
        conditions: None,
        on_full: OnFull::default(),
    }
}

fn tagged(from: &str, to: &str, op: TagOperator, values: &[&str]) -> Edge {
    Edge {
        conditions: Some(TagCondition { operator: op, values: values.iter().map(|s| (*s).to_owned()).collect() }),
        ..e(from, to)
    }
}

fn lines(ls: &[&str]) -> String {
    ls.iter().map(|l| format!("{l}\n")).collect()
}

fn text(r: Rendered) -> String {
    match r {
        Rendered::Text(s) => s,
        Rendered::Ascii { .. } => panic!("expected text"),
    }
}

/// `in -> cat -> out`.
fn linear() -> Topology {
    Topology::new(
        vec![v("in", VertexKind::Source), v("cat", VertexKind::MapUdf), v("out", VertexKind::Sink)],
        vec![e("in", "cat"), e("cat", "out")],
    )
    .unwrap()
}

/// Conditional fan-out to two sinks plus a default sink.
fn even_odd() -> Topology {
    Topology::new(
        vec![
            v("in", VertexKind::Source),
            v("even-or-odd", VertexKind::MapUdf),
            v("even-sink", VertexKind::Sink),
            v("odd-sink", VertexKind::Sink),
            v("number-sink", VertexKind::Sink),
        ],
        vec![
            e("in", "even-or-odd"),
            tagged("even-or-odd", "even-sink", TagOperator::Or, &["even-tag"]),
            tagged("even-or-odd", "odd-sink", TagOperator::Or, &["odd-tag"]),
            tagged("even-or-odd", "number-sink", TagOperator::Or, &["even-tag", "odd-tag"]),
        ],
    )
    .unwrap()
}

/// Two sources, a reduce, a lossy edge and a self-loop.
fn complex() -> Topology {
    let mut lossy = e("enrich", "alerts");
    lossy.on_full = OnFull::DiscardLatest;
    Topology::new(
        vec![
            v("kafka-in", VertexKind::Source),
            v("http-in", VertexKind::Source),
            v("decode", VertexKind::MapUdf),
            v("enrich", VertexKind::MapUdf),
            v("window-agg", VertexKind::Reduce),
            v("warehouse", VertexKind::Sink),
            v("alerts", VertexKind::Sink),
            v("dlq", VertexKind::Sink),
        ],
        vec![
            e("kafka-in", "decode"),
            e("http-in", "decode"),
            tagged("decode", "enrich", TagOperator::Or, &["ok"]),
            tagged("decode", "dlq", TagOperator::Not, &["ok"]),
            e("enrich", "enrich"),
            e("enrich", "window-agg"),
            lossy,
            e("window-agg", "warehouse"),
        ],
    )
    .unwrap()
}

fn sharded() -> Topology {
    Topology::new(
        vec![
            v("in", VertexKind::Source),
            v("router", VertexKind::MapUdf),
            v("worker-0", VertexKind::MapUdf),
            v("worker-1", VertexKind::MapUdf),
            v("merge", VertexKind::MapUdf),
            v("out", VertexKind::Sink),
            v("audit", VertexKind::Sink),
        ],
        vec![
            e("in", "router"),
            tagged("router", "worker-0", TagOperator::Or, &["shard-0"]),
            tagged("router", "worker-1", TagOperator::Or, &["shard-1"]),
            e("worker-0", "merge"),
            e("worker-1", "merge"),
            e("merge", "out"),
            tagged("router", "audit", TagOperator::Or, &["audit"]),
        ],
    )
    .unwrap()
}

#[test]
fn mermaid() {
    assert_eq!(
        text(render(&linear(), Format::Mermaid, None)),
        "flowchart LR\n  in([\"in\"])\n  cat[\"cat\"]\n  out[[\"out\"]]\n  in --> cat\n  cat --> out\n"
    );
    assert_eq!(
        text(render(&even_odd(), Format::Mermaid, None)),
        lines(&[
            "flowchart LR",
            "  in([\"in\"])",
            "  even_or_odd[\"even-or-odd\"]",
            "  even_sink[[\"even-sink\"]]",
            "  odd_sink[[\"odd-sink\"]]",
            "  number_sink[[\"number-sink\"]]",
            "  in --> even_or_odd",
            "  even_or_odd -->|even-tag| even_sink",
            "  even_or_odd -->|odd-tag| odd_sink",
            "  even_or_odd -->|even-tag, odd-tag| number_sink",
        ])
    );
    assert_eq!(
        text(render(&complex(), Format::Mermaid, None)),
        lines(&[
            "flowchart LR",
            "  kafka_in([\"kafka-in\"])",
            "  http_in([\"http-in\"])",
            "  decode[\"decode\"]",
            "  enrich[\"enrich\"]",
            "  window_agg{{\"window-agg\"}}",
            "  warehouse[[\"warehouse\"]]",
            "  alerts[[\"alerts\"]]",
            "  dlq[[\"dlq\"]]",
            "  kafka_in --> decode",
            "  http_in --> decode",
            "  decode -->|ok| enrich",
            "  decode -->|not ok| dlq",
            "  enrich --> enrich",
            "  enrich --> window_agg",
            "  enrich -.-> alerts",
            "  window_agg --> warehouse",
        ])
    );
}

#[test]
fn dot() {
    assert_eq!(
        text(render(&complex(), Format::Dot, None)),
        lines(&[
            "digraph pipeline {",
            "  rankdir=LR;",
            "  node [fontname=\"monospace\"];",
            "  \"kafka-in\" [shape=cds];",
            "  \"http-in\" [shape=cds];",
            "  \"decode\" [shape=box];",
            "  \"enrich\" [shape=box];",
            "  \"window-agg\" [shape=hexagon];",
            "  \"warehouse\" [shape=box3d];",
            "  \"alerts\" [shape=box3d];",
            "  \"dlq\" [shape=box3d];",
            "  \"kafka-in\" -> \"decode\";",
            "  \"http-in\" -> \"decode\";",
            "  \"decode\" -> \"enrich\" [label=\"ok\"];",
            "  \"decode\" -> \"dlq\" [label=\"not ok\"];",
            "  \"enrich\" -> \"enrich\";",
            "  \"enrich\" -> \"window-agg\";",
            "  \"enrich\" -> \"alerts\" [style=dashed];",
            "  \"window-agg\" -> \"warehouse\";",
            "}",
        ])
    );
}

#[test]
fn shards_collapse_unless_expanded() {
    let collapsed = RenderOptions { collapse_shards: true, ..RenderOptions::default() };
    assert_eq!(
        text(render_with(&sharded(), Format::Mermaid, collapsed)),
        lines(&[
            "flowchart LR",
            "  in([\"in\"])",
            "  router[\"router\"]",
            "  worker_x2[\"worker ×2\"]",
            "  merge[\"merge\"]",
            "  out[[\"out\"]]",
            "  audit[[\"audit\"]]",
            "  in --> router",
            "  router -->|shard-*| worker_x2",
            "  worker_x2 --> merge",
            "  merge --> out",
            "  router -->|audit| audit",
        ])
    );
    let labels = |r: Rendered| match r {
        Rendered::Ascii { view, .. } => view.nodes.iter().map(|n| n.label.clone()).collect::<Vec<_>>(),
        Rendered::Text(_) => panic!("the box drawing is left to the caller"),
    };
    let grouped = labels(render_with(&sharded(), Format::Ascii, collapsed));
    assert!(grouped.contains(&"worker ×2".to_owned()));
    let expanded = labels(render_with(&sharded(), Format::Ascii, RenderOptions::default()));
    assert_eq!(expanded, labels(render(&sharded(), Format::Ascii, None)));
    assert!(expanded.contains(&"worker-1".to_owned()) && !expanded.iter().any(|l| l.contains("×2")));
}
