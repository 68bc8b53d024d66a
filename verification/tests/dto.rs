use nfctl::dto::isb::{IsbSpecDto, IsbStatusDto, JetStreamDto, conditions_ready, isb_from, isb_replicas};
use nfctl::dto::pipeline::{
    ConditionDto, ConditionsDto, ContainerDto, EdgeDto, LifecycleDto, PipelineStatusDto, TagsDto, UdfDto, VertexCounts,
    VertexDto, condition_from, edge_from, lifecycle_from, resume_strategy_from, status_from, topology_from, vertex_from,
    ResumeStrategy,
};
use nfctl::dto::monovertex::{
    LifecycleDto as MonoLifecycle, MonoVertexSpecDto as MonoSpec, MonoVertexStatusDto, SinkDto, SourceDto,
    monovertex_from,
};
use nfctl::dto::{DesiredPhase, DtoError};
use nfctl::model::{OnFull, TagOperator, VertexKind, VertexName};

fn vertex(name: &str, source: bool, sink: bool, udf: Option<UdfDto>, partitions: Option<u32>) -> VertexDto {
    VertexDto { name: name.to_owned(), source, sink, udf, partitions, scale: None }
}

fn edge(from: &str, to: &str, tags: Option<(&str, &[&str])>, on_full: Option<&str>) -> EdgeDto {
    EdgeDto {
        from: from.to_owned(),
        to: to.to_owned(),
        conditions: tags.map(|(op, vs)| ConditionsDto {
            tags: Some(TagsDto { operator: Some(op.to_owned()), values: vs.iter().map(|s| (*s).to_owned()).collect() }),
        }),
        on_full: on_full.map(str::to_owned),
    }
}

/// The vertices and edges of a reconciled simple pipeline.
fn simple() -> (Vec<VertexDto>, Vec<EdgeDto>) {
    let vertices = vec![
        vertex("in", true, false, None, None),
        vertex("cat", false, false, Some(UdfDto { container: None, group_by: false }), Some(2)),
        vertex(
            "agg",
            false,
            false,
            Some(UdfDto { container: Some(ContainerDto { image: Some("example.invalid/agg:1".to_owned()) }), group_by: true }),
            None,
        ),
        vertex("out", false, true, None, None),
    ];
    let edges = vec![
        edge("in", "cat", None, None),
        edge("cat", "agg", Some(("and", &["a", "b"])), None),
        edge("agg", "out", None, Some("discardLatest")),
    ];
    (vertices, edges)
}

fn simple_status(phase: &str) -> PipelineStatusDto {
    PipelineStatusDto {
        phase: Some(phase.to_owned()),
        message: Some(String::new()),
        conditions: vec![ConditionDto {
            kind: "Configured".to_owned(),
            status: "True".to_owned(),
            reason: Some("Successful".to_owned()),
            message: None,
        }],
        observed_generation: Some(2),
        drained_on_pause: false,
        vertex_count: Some(4),
        source_count: Some(1),
        sink_count: Some(1),
        udf_count: Some(2),
        map_udf_count: Some(1),
        reduce_udf_count: Some(1),
    }
}

#[test]
fn converts_a_reconciled_pipeline() {
    let (vs, es) = simple();
    let t = topology_from(&vs, &es).unwrap();
    assert_eq!(t.vertices().len(), 4);
    let cat = t.vertex(&VertexName::new("cat").unwrap()).unwrap();
    assert_eq!((cat.kind, cat.partitions), (VertexKind::MapUdf, 2));
    let agg = t.vertex(&VertexName::new("agg").unwrap()).unwrap();
    assert_eq!(agg.kind, VertexKind::Reduce);
    assert_eq!(agg.image.as_deref(), Some("example.invalid/agg:1"));
    assert_eq!(t.edges()[1].conditions.as_ref().unwrap().operator, TagOperator::And);
    assert_eq!(t.edges()[2].on_full, OnFull::DiscardLatest);
    let lc = LifecycleDto {
        desired_phase: Some("Running".to_owned()),
        pause_grace_period_seconds: Some(30),
        deletion_grace_period_seconds: None,
        delete_grace_period_seconds: Some(30),
    };
    let l = lifecycle_from(&lc).unwrap();
    assert_eq!(l.desired, DesiredPhase::Running);
    assert_eq!(l.deletion_grace_secs, 30);
    let c = condition_from(&ConditionDto {
        kind: "Configured".to_owned(),
        status: "True".to_owned(),
        reason: Some("Successful".to_owned()),
        message: None,
    });
    assert!(c.ok);
    let st = status_from(&simple_status("Running"));
    assert_eq!(st.phase.as_deref(), Some("Running"));
    assert_eq!(st.message, None);
    assert_eq!(st.counts.reduce_udfs, 1);
    assert!(st.conditions[0].ok);
    assert_eq!(resume_strategy_from(&Some("slow".to_owned())), Ok(Some(ResumeStrategy::Slow)));
}

#[test]
fn unknown_phase_is_lenient_but_bad_topology_is_not() {
    let st = status_from(&simple_status("Hibernating"));
    assert_eq!(st.phase.as_deref(), Some("Hibernating"));
    let (vs, mut es) = simple();
    es[0].to = "ghost".to_owned();
    assert!(matches!(topology_from(&vs, &es), Err(DtoError::Topology(_))));
}

#[test]
fn rejects_vertices_with_multiple_kind_markers() {
    let udf = || Some(UdfDto { container: None, group_by: false });
    let bad = [
        vertex("in", true, true, None, None),
        vertex("in", true, false, udf(), None),
        vertex("in", false, true, udf(), None),
        vertex("in", true, true, udf(), None),
    ];
    for v in bad {
        let (mut vs, es) = simple();
        vs[0] = v;
        let err = topology_from(&vs, &es).unwrap_err();
        assert!(err.reason().contains("exactly one of source, sink or udf"), "{}", err.reason());
    }
}

#[test]
fn rejects_zero_partitions() {
    for at in [0, 1] {
        let (mut vs, es) = simple();
        vs[at].partitions = Some(0);
        let err = topology_from(&vs, &es).unwrap_err();
        assert!(err.reason().contains("partitions must be at least 1"), "{}", err.reason());
    }
}

#[test]
fn rejects_an_unknown_tag_operator() {
    let (vs, mut es) = simple();
    es[1] = edge("cat", "agg", Some(("xor", &["a", "b"])), None);
    let err = topology_from(&vs, &es).unwrap_err();
    assert!(err.reason().contains("unknown tag operator `xor`"), "{}", err.reason());
}

#[test]
fn rejects_an_unknown_on_full_policy() {
    let (vs, mut es) = simple();
    es[0].on_full = Some("dropOldest".to_owned());
    let err = topology_from(&vs, &es).unwrap_err();
    assert!(err.reason().contains("unknown onFull policy `dropOldest`"), "{}", err.reason());
}

#[test]
fn pipeline_rejects_an_unknown_desired_phase() {
    let lc = LifecycleDto {
        desired_phase: Some("Hibernating".to_owned()),
        pause_grace_period_seconds: None,
        deletion_grace_period_seconds: None,
        delete_grace_period_seconds: None,
    };
    let err = lifecycle_from(&lc).unwrap_err();
    assert!(err.reason().contains("unknown desired phase `Hibernating`"), "{}", err.reason());
}

#[test]
fn grace_periods_default_and_read_the_old_spelling() {
    let lc = LifecycleDto {
        desired_phase: Some("Paused".to_owned()),
        pause_grace_period_seconds: None,
        deletion_grace_period_seconds: None,
        delete_grace_period_seconds: Some(12),
    };
    let l = lifecycle_from(&lc).unwrap();
    assert_eq!((l.desired, l.pause_grace_secs, l.deletion_grace_secs), (DesiredPhase::Paused, 30, 12));
}

#[test]
fn edge_ends_must_be_names() {
    let e = edge("In", "cat", None, None);
    assert!(matches!(edge_from(&e), Err(DtoError::EdgeEnd(true, _, _))));
    let e = edge("in", "", None, None);
    assert!(matches!(edge_from(&e), Err(DtoError::EdgeEnd(false, _, _))));
    let v = vertex("bad name", true, false, None, None);
    assert!(matches!(vertex_from(&v), Err(DtoError::VertexName(_, _))));
}

#[test]
fn isb_replicas_are_at_least_three_and_ready_needs_every_condition() {
    assert_eq!(isb_replicas(None), 3);
    assert_eq!(isb_replicas(Some(2)), 3);
    assert_eq!(isb_replicas(Some(5)), 5);
    let cond = |s: &str| ConditionDto { kind: "Deployed".to_owned(), status: s.to_owned(), reason: None, message: None };
    assert!(!conditions_ready(&IsbStatusDto { phase: None, conditions: vec![] }));
    assert!(conditions_ready(&IsbStatusDto { phase: None, conditions: vec![cond("True"), cond("True")] }));
    assert!(!conditions_ready(&IsbStatusDto { phase: None, conditions: vec![cond("True"), cond("False")] }));
}

fn mono_spec(desired: Option<&str>) -> MonoSpec {
    MonoSpec {
        replicas: None,
        source: Some(SourceDto { transformer: true }),
        udf: false,
        sink: Some(SinkDto { fallback: true }),
        lifecycle: MonoLifecycle { desired_phase: desired.map(str::to_owned) },
    }
}

#[test]
fn monovertex_rejects_an_unknown_desired_phase() {
    let err = monovertex_from(&mono_spec(Some("Hibernating")), &None).unwrap_err();
    assert!(err.reason().contains("unknown desired phase `Hibernating`"), "{}", err.reason());
}

#[test]
fn monovertex_reads_its_chain_and_status() {
    let m = monovertex_from(&mono_spec(None), &None).unwrap();
    assert_eq!(m.desired, DesiredPhase::Running);
    assert!(m.has_transformer && !m.has_map && m.has_fallback);
    assert_eq!((m.replicas, m.message.clone(), m.conditions.len()), (0, None, 0));
    let status = MonoVertexStatusDto {
        phase: Some("Running".to_owned()),
        message: Some(String::new()),
        replicas: Some(3),
        desired_replicas: Some(3),
        ready_replicas: Some(2),
        conditions: vec![ConditionDto {
            kind: "DaemonHealthy".to_owned(),
            status: "False".to_owned(),
            reason: None,
            message: Some("starting".to_owned()),
        }],
    };
    let m = monovertex_from(&mono_spec(Some("Paused")), &Some(status)).unwrap();
    assert_eq!(m.desired, DesiredPhase::Paused);
    assert_eq!(m.phase.as_deref(), Some("Running"));
    assert_eq!((m.replicas, m.ready_replicas), (3, Some(2)));
    assert_eq!(m.message, None, "an empty message is no message");
    assert_eq!(m.conditions.len(), 1);
    assert!(!m.conditions[0].ok);
    assert_eq!(m.conditions[0].message.as_deref(), Some("starting"));
}

#[test]
fn healthy_when_running_and_all_conditions_true() {
    let c = |kind: &str, reason: Option<&str>| ConditionDto {
        kind: kind.to_owned(),
        status: "True".to_owned(),
        reason: reason.map(str::to_owned),
        message: None,
    };
    let spec = IsbSpecDto {
        jetstream: Some(JetStreamDto { version: Some("2.10.3".to_owned()), replicas: Some(3), persistence: true }),
    };
    let status = IsbStatusDto {
        phase: Some("Running".to_owned()),
        conditions: vec![c("ChildrenResourcesHealthy", Some("Healthy")), c("Configured", None), c("Deployed", None)],
    };
    let isb = isb_from(&spec, &Some(status));
    assert_eq!(isb.phase.as_deref(), Some("Running"));
    assert!(isb.persistent);
    assert!(isb.healthy);
    assert_eq!((isb.version.as_str(), isb.replicas), ("2.10.3", 3));
}

#[test]
fn isb_is_unhealthy_while_pending_or_unreported() {
    let spec = IsbSpecDto { jetstream: None };
    let bare = isb_from(&spec, &None);
    assert_eq!((bare.version.as_str(), bare.replicas, bare.persistent, bare.healthy), ("", 3, false, false));
    let pending = IsbStatusDto {
        phase: Some("Pending".to_owned()),
        conditions: vec![ConditionDto { kind: "Deployed".to_owned(), status: "True".to_owned(), reason: None, message: None }],
    };
    assert!(!isb_from(&spec, &Some(pending)).healthy);
}

#[test]
fn rejects_an_unknown_resume_strategy() {
    let err = resume_strategy_from(&Some("instant".to_owned())).unwrap_err();
    assert!(err.reason().contains("unknown resume strategy `instant`"), "{}", err.reason());
    assert_eq!(resume_strategy_from(&Some("slow".to_owned())), Ok(Some(ResumeStrategy::Slow)));
    assert_eq!(resume_strategy_from(&Some("fast".to_owned())), Ok(Some(ResumeStrategy::Fast)));
    assert_eq!(resume_strategy_from(&None), Ok(None));
}

#[test]
fn missing_counts_read_zero_and_a_message_is_kept() {
    let mut dto = simple_status("Paused");
    dto.vertex_count = None;
    dto.sink_count = None;
    dto.message = Some("draining".to_owned());
    dto.conditions[0].status = "False".to_owned();
    let st = status_from(&dto);
    assert_eq!(
        st.counts,
        VertexCounts { total: 0, sources: 1, sinks: 0, udfs: 2, map_udfs: 1, reduce_udfs: 1 }
    );
    assert_eq!(st.message.as_deref(), Some("draining"));
    assert!(!st.conditions[0].ok);
    assert_eq!(st.observed_generation, Some(2));
}
