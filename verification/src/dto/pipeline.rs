//! The Pipeline resource's wire shape and its conversion into the domain.

use vstd::prelude::*;

use crate::dto::{Condition, DesiredPhase, DtoError, desired_from, desired_spec, is_text};
use crate::view::strings_view;
use crate::model::{
    Edge, OnFull, ScaleSpec, TagCondition, TagOperator, Topology, Vertex, VertexKind, VertexName, valid_name,
};

verus! {

#[derive(Debug, Clone, PartialEq, Eq)]
pub struct LifecycleDto {
    pub desired_phase: Option<String>,
    pub pause_grace_period_seconds: Option<u64>,
    pub deletion_grace_period_seconds: Option<u64>,
    /// Deprecated spelling still emitted by the operator's defaults.
    pub delete_grace_period_seconds: Option<u64>,
}

#[derive(Debug, Clone, Copy, PartialEq, Eq)]
pub struct LimitsDto {
    pub read_batch_size: Option<u64>,
    pub buffer_max_length: Option<u64>,
    /// Percentage here; the daemon reports a fraction.
    pub buffer_usage_limit: Option<u32>,
}

#[derive(Debug, Clone, PartialEq, Eq)]
pub struct ContainerDto {
    pub image: Option<String>,
}

#[derive(Debug, Clone, PartialEq, Eq)]
pub struct UdfDto {
    pub container: Option<ContainerDto>,
    /// Whether `groupBy` is set: a reduce rather than a map.
    pub group_by: bool,
}

#[derive(Debug, Clone, Copy, PartialEq, Eq)]
pub struct ScaleDto {
    pub min: Option<u32>,
    pub max: Option<u32>,
    pub disabled: bool,
}

#[derive(Debug, Clone, PartialEq, Eq)]
pub struct VertexDto {
    pub name: String,
    /// Whether `source` is set; its contents are not modelled.
    pub source: bool,
    /// Whether `sink` is set.
    pub sink: bool,
    pub udf: Option<UdfDto>,
    pub partitions: Option<u32>,
    pub scale: Option<ScaleDto>,
}

#[derive(Debug, Clone, PartialEq, Eq)]
pub struct TagsDto {
    pub operator: Option<String>,
    pub values: Vec<String>,
}

#[derive(Debug, Clone, PartialEq, Eq)]
pub struct ConditionsDto {
    pub tags: Option<TagsDto>,
}

#[derive(Debug, Clone, PartialEq, Eq)]
pub struct EdgeDto {
    pub from: String,
    pub to: String,
    pub conditions: Option<ConditionsDto>,
    pub on_full: Option<String>,
}

#[derive(Debug, Clone, PartialEq, Eq)]
pub struct ConditionDto {
    pub kind: String,
    pub status: String,
    pub reason: Option<String>,
    pub message: Option<String>,
}

/// A condition as the domain reads it: `ok` when its status is `True`.
pub fn condition_from(c: &ConditionDto) -> (r: Condition)
    ensures
        r.kind@ == c.kind@,
        r.ok == (c.status@ == "True"@),
        r.reason == c.reason,
        r.message == c.message,
{
    Condition { kind: c.kind.clone(), ok: is_text(&c.status, "True"), reason: c.reason.clone(), message: c.message.clone() }
}

/// The kind a vertex's fields give: exactly one of source, sink and udf, a
/// udf with `groupBy` being a reduce.
pub open spec fn kind_spec(d: VertexDto) -> Option<VertexKind> {
    match (d.source, d.sink, d.udf) {
        (true, false, None) => Some(VertexKind::Source),
        (false, true, None) => Some(VertexKind::Sink),
        (false, false, Some(u)) => Some(if u.group_by { VertexKind::Reduce } else { VertexKind::MapUdf }),
        _ => None,
    }
}

/// Convert a wire vertex, checking in order: a valid name, at least one
/// partition, exactly one of source, sink and udf. A source always has one
/// partition; the others default to one. The image is the udf container's.
pub fn vertex_from(d: &VertexDto) -> (r: Result<Vertex, DtoError>)
    ensures
        match r {
            Err(DtoError::VertexName(n, _)) => n@ == d.name@ && !valid_name(d.name@),
            Err(DtoError::ZeroPartitions(n)) => n@ == d.name@ && valid_name(d.name@) && d.partitions == Some(0u32),
            Err(DtoError::NotOneKind(n)) => n@ == d.name@ && valid_name(d.name@) && d.partitions != Some(0u32)
                && kind_spec(*d) is None,
            Err(_) => false,
            Ok(v) => {
                &&& valid_name(d.name@)
                &&& d.partitions != Some(0u32)
                &&& v.name@ == d.name@
                &&& Some(v.kind) == kind_spec(*d)
                &&& v.partitions == if v.kind == VertexKind::Source {
                    1
                } else {
                    match d.partitions {
                        Some(p) => p,
                        None => 1,
                    }
                }
                &&& v.scale == match d.scale {
                    Some(s) => ScaleSpec { min: s.min, max: s.max, disabled: s.disabled },
                    None => ScaleSpec { min: None, max: None, disabled: false },
                }
                &&& v.image == match d.udf {
                    Some(u) => match u.container {
                        Some(c) => c.image,
                        None => None,
                    },
                    None => None,
                }
            },
        },
{
    let name = match VertexName::new(d.name.as_str()) {
        Ok(n) => n,
        Err(e) => {
            return Err(DtoError::VertexName(d.name.clone(), e));
        },
    };
    if d.partitions == Some(0u32) {
        return Err(DtoError::ZeroPartitions(d.name.clone()));
    }
    let (kind, image) = match (d.source, d.sink, &d.udf) {
        (true, false, None) => (VertexKind::Source, None),
        (false, true, None) => (VertexKind::Sink, None),
        (false, false, Some(u)) => {
            let kind = if u.group_by { VertexKind::Reduce } else { VertexKind::MapUdf };
            let image = match &u.container {
                Some(c) => c.image.clone(),
                None => None,
            };
            (kind, image)
        },
        _ => {
            return Err(DtoError::NotOneKind(d.name.clone()));
        },
    };
    // Sources are always single-partition; Numaflow ignores the field for them.
    let partitions = match kind {
        VertexKind::Source => 1,
        _ => match d.partitions {
            Some(p) => p,
            None => 1,
        },
    };
    let scale = match d.scale {
        Some(s) => ScaleSpec { min: s.min, max: s.max, disabled: s.disabled },
        None => ScaleSpec::default(),
    };
    Ok(Vertex { name, kind, partitions, scale, image })
}

/// The operator a tag condition names: `or` when absent.
pub open spec fn operator_spec(op: Option<String>) -> Option<TagOperator> {
    match op {
        None => Some(TagOperator::Or),
        Some(t) => if t@ == "or"@ {
            Some(TagOperator::Or)
        } else if t@ == "and"@ {
            Some(TagOperator::And)
        } else if t@ == "not"@ {
            Some(TagOperator::Not)
        } else {
            None
        },
    }
}

/// A tag condition without an operator is an `or`; `or`, `and` and `not`
/// name their operators, and any other word names none.
pub proof fn lemma_tag_operator_words(t: String)
    ensures
        operator_spec(None) == Some(TagOperator::Or),
        t@ == "or"@ ==> operator_spec(Some(t)) == Some(TagOperator::Or),
        t@ == "and"@ ==> operator_spec(Some(t)) == Some(TagOperator::And),
        t@ == "not"@ ==> operator_spec(Some(t)) == Some(TagOperator::Not),
        t@ != "or"@ && t@ != "and"@ && t@ != "not"@ ==> operator_spec(Some(t)) is None,
{
    reveal_strlit("or");
    reveal_strlit("and");
    reveal_strlit("not");
    assert("and"@.len() == 3 && "or"@.len() == 2 && "not"@.len() == 3);
    assert("not"@[0] == 'n' && "and"@[0] == 'a');
}

/// The full-buffer policy an edge names: `retryUntilSuccess` when absent.
pub open spec fn on_full_spec(p: Option<String>) -> Option<OnFull> {
    match p {
        None => Some(OnFull::RetryUntilSuccess),
        Some(t) => if t@ == "discardLatest"@ {
            Some(OnFull::DiscardLatest)
        } else if t@ == "retryUntilSuccess"@ {
            Some(OnFull::RetryUntilSuccess)
        } else {
            None
        },
    }
}

/// The tags of an edge's conditions, when it has any.
pub open spec fn tags_of(d: EdgeDto) -> Option<TagsDto> {
    match d.conditions {
        Some(c) => c.tags,
        None => None,
    }
}

/// Convert a wire edge, checking in order: a valid source name, a valid
/// target name, a known tag operator, a known full-buffer policy.
pub fn edge_from(d: &EdgeDto) -> (r: Result<Edge, DtoError>)
    ensures
        match r {
            Err(DtoError::EdgeEnd(true, n, _)) => n@ == d.from@ && !valid_name(d.from@),
            Err(DtoError::EdgeEnd(false, n, _)) => n@ == d.to@ && valid_name(d.from@) && !valid_name(d.to@),
            Err(DtoError::TagOperator(o)) => valid_name(d.from@) && valid_name(d.to@) && tags_of(*d) is Some
                && tags_of(*d).unwrap().operator == Some(o) && operator_spec(Some(o)) is None,
            Err(DtoError::OnFull(o)) => valid_name(d.from@) && valid_name(d.to@) && (tags_of(*d) is Some
                ==> operator_spec(tags_of(*d).unwrap().operator) is Some) && d.on_full == Some(o)
                && on_full_spec(Some(o)) is None,
            Err(_) => false,
            Ok(e) => {
                &&& valid_name(d.from@)
                &&& valid_name(d.to@)
                &&& on_full_spec(d.on_full) is Some
                &&& e.from@ == d.from@
                &&& e.to@ == d.to@
                &&& e.on_full == on_full_spec(d.on_full).unwrap()
                &&& match tags_of(*d) {
                    Some(t) => e.conditions matches Some(c) && Some(c.operator) == operator_spec(t.operator)
                        && strings_view(c.values@) == strings_view(t.values@),
                    None => e.conditions is None,
                }
            },
        },
        r matches Ok(e) ==> match tags_of(*d) {
            Some(t) => e.conditions matches Some(c) && (t.operator is None ==> c.operator == TagOperator::Or) && (
            t.operator matches Some(o) && o@ == "or"@ ==> c.operator == TagOperator::Or) && (t.operator matches Some(o) && o@
                == "and"@ ==> c.operator == TagOperator::And) && (t.operator matches Some(o) && o@ == "not"@ ==> c.operator
                == TagOperator::Not),
            None => true,
        },
{
    proof {
        match tags_of(*d) {
            Some(t) => match t.operator {
                Some(o) => lemma_tag_operator_words(o),
                None => {},
            },
            None => {},
        }
    }
    let from = match VertexName::new(d.from.as_str()) {
        Ok(n) => n,
        Err(e) => {
            return Err(DtoError::EdgeEnd(true, d.from.clone(), e));
        },
    };
    let to = match VertexName::new(d.to.as_str()) {
        Ok(n) => n,
        Err(e) => {
            return Err(DtoError::EdgeEnd(false, d.to.clone(), e));
        },
    };
    let tags = match &d.conditions {
        Some(c) => &c.tags,
        None => &None,
    };
    let conditions = match tags {
        None => None,
        Some(t) => {
            let operator = match &t.operator {
                None => TagOperator::Or,
                Some(o) => {
                    if is_text(o, "or") {
                        TagOperator::Or
                    } else if is_text(o, "and") {
                        TagOperator::And
                    } else if is_text(o, "not") {
                        TagOperator::Not
                    } else {
                        return Err(DtoError::TagOperator(o.clone()));
                    }
                },
            };
            let mut values: Vec<String> = Vec::new();
            let mut i: usize = 0;
            while i < t.values.len()
                invariant
                    i <= t.values@.len(),
                    values@.len() == i,
                    strings_view(values@) == strings_view(t.values@.take(i as int)),
                decreases t.values.len() - i,
            {
                let ghost before = values@;
                values.push(crate::text::string_of(&crate::text::chars_of(t.values[i].as_str())));
                proof {
                    assert forall|k: int| 0 <= k < i + 1 implies (#[trigger] values@[k])@ == t.values@[k]@ by {
                        if k < i {
                            assert(strings_view(before)[k] == strings_view(t.values@.take(i as int))[k]);
                        }
                    }
                    assert(strings_view(values@) =~= strings_view(t.values@.take(i + 1)));
                }
                i += 1;
            }
            proof {
                assert(t.values@.take(i as int) =~= t.values@);
            }
            Some(TagCondition { operator, values })
        },
    };
    let on_full = match &d.on_full {
        None => OnFull::RetryUntilSuccess,
        Some(p) => {
            if is_text(p, "discardLatest") {
                OnFull::DiscardLatest
            } else if is_text(p, "retryUntilSuccess") {
                OnFull::RetryUntilSuccess
            } else {
                return Err(DtoError::OnFull(p.clone()));
            }
        },
    };
    Ok(Edge { from, to, conditions, on_full })
}

/// A wire vertex that converts.
pub open spec fn vertex_ok(d: VertexDto) -> bool {
    valid_name(d.name@) && d.partitions != Some(0u32) && kind_spec(d) is Some
}

/// A wire edge that converts.
pub open spec fn edge_ok(d: EdgeDto) -> bool {
    &&& valid_name(d.from@)
    &&& valid_name(d.to@)
    &&& (tags_of(d) is Some ==> operator_spec(tags_of(d).unwrap().operator) is Some)
    &&& on_full_spec(d.on_full) is Some
}

pub open spec fn has_dto_name(vs: Seq<VertexDto>, n: Seq<char>) -> bool {
    exists|i: int| 0 <= i < vs.len() && (#[trigger] vs[i]).name@ == n
}

/// The wire names make a topology: distinct vertex names, every edge
/// between two of them, no pair joined twice.
pub open spec fn dto_topology_ok(vs: Seq<VertexDto>, es: Seq<EdgeDto>) -> bool {
    &&& forall|i: int, j: int| 0 <= i < j < vs.len() ==> #[trigger] vs[i].name@ != #[trigger] vs[j].name@
    &&& forall|k: int| 0 <= k < es.len() ==> has_dto_name(vs, #[trigger] es[k].from@) && has_dto_name(vs, es[k].to@)
    &&& forall|k: int, l: int|
        0 <= k < l < es.len() ==> !(#[trigger] es[k].from@ == #[trigger] es[l].from@ && es[k].to@ == es[l].to@)
}

/// The topology of a pipeline's wire vertices and edges: every vertex
/// converted in order, then every edge, the first failure returned; then the
/// topology rules.
pub fn topology_from(vs: &Vec<VertexDto>, es: &Vec<EdgeDto>) -> (r: Result<Topology, DtoError>)
    ensures
        match r {
            Ok(t) => {
                &&& forall|i: int| 0 <= i < vs@.len() ==> vertex_ok(#[trigger] vs@[i])
                &&& forall|j: int| 0 <= j < es@.len() ==> edge_ok(#[trigger] es@[j])
                &&& dto_topology_ok(vs@, es@)
                &&& t.spec_vertices().len() == vs@.len()
                &&& forall|i: int|
                    0 <= i < vs@.len() ==> (#[trigger] t.spec_vertices()[i]).name@ == vs@[i].name@ && Some(
                        t.spec_vertices()[i].kind,
                    ) == kind_spec(vs@[i])
                &&& t.spec_edges().len() == es@.len()
                &&& forall|j: int|
                    0 <= j < es@.len() ==> (#[trigger] t.spec_edges()[j]).from@ == es@[j].from@ && t.spec_edges()[j].to@
                        == es@[j].to@
            },
            Err(DtoError::Topology(_)) => {
                &&& forall|i: int| 0 <= i < vs@.len() ==> vertex_ok(#[trigger] vs@[i])
                &&& forall|j: int| 0 <= j < es@.len() ==> edge_ok(#[trigger] es@[j])
                &&& !dto_topology_ok(vs@, es@)
            },
            Err(_) => (exists|i: int| 0 <= i < vs@.len() && !vertex_ok(#[trigger] vs@[i])) || (exists|j: int|
                0 <= j < es@.len() && !edge_ok(#[trigger] es@[j])),
        },
{
    let mut out_vs: Vec<Vertex> = Vec::new();
    let mut i: usize = 0;
    while i < vs.len()
        invariant
            i <= vs@.len(),
            out_vs@.len() == i,
            forall|k: int| 0 <= k < i ==> vertex_ok(#[trigger] vs@[k]),
            forall|k: int|
                0 <= k < i ==> (#[trigger] out_vs@[k]).name@ == vs@[k].name@ && Some(out_vs@[k].kind) == kind_spec(vs@[k]),
        decreases vs.len() - i,
    {
        match vertex_from(&vs[i]) {
            Ok(v) => {
                out_vs.push(v);
            },
            Err(e) => {
                proof {
                    assert(!vertex_ok(vs@[i as int]));
                }
                return Err(e);
            },
        }
        i += 1;
    }
    let mut out_es: Vec<Edge> = Vec::new();
    let mut j: usize = 0;
    while j < es.len()
        invariant
            j <= es@.len(),
            out_es@.len() == j,
            forall|k: int| 0 <= k < vs@.len() ==> vertex_ok(#[trigger] vs@[k]),
            out_vs@.len() == vs@.len(),
            forall|k: int|
                0 <= k < vs@.len() ==> (#[trigger] out_vs@[k]).name@ == vs@[k].name@ && Some(out_vs@[k].kind) == kind_spec(vs@[k]),
            forall|k: int| 0 <= k < j ==> edge_ok(#[trigger] es@[k]),
            forall|k: int| 0 <= k < j ==> (#[trigger] out_es@[k]).from@ == es@[k].from@ && out_es@[k].to@ == es@[k].to@,
        decreases es.len() - j,
    {
        match edge_from(&es[j]) {
            Ok(e) => {
                out_es.push(e);
            },
            Err(e) => {
                proof {
                    assert(!edge_ok(es@[j as int]));
                }
                return Err(e);
            },
        }
        j += 1;
    }
    let ghost gv = out_vs@;
    let ghost ge = out_es@;
    proof {
        assert forall|n: Seq<char>| crate::model::has_name(gv, n) == has_dto_name(vs@, n) by {
            if crate::model::has_name(gv, n) {
                let i = choose|i: int| 0 <= i < gv.len() && gv[i].name@ == n;
                assert(vs@[i].name@ == n);
            }
            if has_dto_name(vs@, n) {
                let i = choose|i: int| 0 <= i < vs@.len() && (#[trigger] vs@[i]).name@ == n;
                assert(gv[i].name@ == n);
            }
        }
        assert forall|k: int| 0 <= k < gv.len() implies (#[trigger] gv[k]).name@ == vs@[k].name@ by {}
        assert forall|k: int| 0 <= k < ge.len() implies (#[trigger] ge[k]).from@ == es@[k].from@ && ge[k].to@ == es@[k].to@ by {}
        if crate::model::topology_ok(gv, ge) {
            assert forall|i: int, j: int| 0 <= i < j < vs@.len() implies #[trigger] vs@[i].name@ != #[trigger] vs@[j].name@ by {
                assert(gv[i].name@ != gv[j].name@);
            }
            assert forall|k: int| 0 <= k < es@.len() implies has_dto_name(vs@, #[trigger] es@[k].from@) && has_dto_name(vs@, es@[k].to@) by {
                assert(crate::model::has_name(gv, ge[k].from@));
                assert(crate::model::has_name(gv, ge[k].to@));
            }
            assert forall|k: int, l: int| 0 <= k < l < es@.len() implies !(#[trigger] es@[k].from@ == #[trigger] es@[l].from@ && es@[k].to@ == es@[l].to@) by {
                assert(!(ge[k].from@ == ge[l].from@ && ge[k].to@ == ge[l].to@));
            }
        }
        if dto_topology_ok(vs@, es@) {
            assert forall|i: int, j: int| 0 <= i < j < gv.len() implies #[trigger] gv[i].name@ != #[trigger] gv[j].name@ by {
                assert(vs@[i].name@ != vs@[j].name@);
            }
            assert forall|k: int| 0 <= k < ge.len() implies crate::model::has_name(gv, #[trigger] ge[k].from@) && crate::model::has_name(gv, ge[k].to@) by {
                assert(has_dto_name(vs@, es@[k].from@));
                assert(has_dto_name(vs@, es@[k].to@));
            }
            assert forall|k: int, l: int| 0 <= k < l < ge.len() implies !(#[trigger] ge[k].from@ == #[trigger] ge[l].from@ && ge[k].to@ == ge[l].to@) by {
                assert(!(es@[k].from@ == es@[l].from@ && es@[k].to@ == es@[l].to@));
            }
        }
        assert(crate::model::topology_ok(gv, ge) == dto_topology_ok(vs@, es@));
    }
    match Topology::new(out_vs, out_es) {
        Ok(t) => Ok(t),
        Err(e) => Err(DtoError::Topology(e)),
    }
}

/// What a pipeline is asked to do: run or pause, and the grace periods of a
/// pause and of a deletion, in seconds.
#[derive(Debug, Clone, Copy, PartialEq, Eq)]
pub struct Lifecycle {
    pub desired: DesiredPhase,
    pub pause_grace_secs: u64,
    pub deletion_grace_secs: u64,
}

/// The lifecycle a wire lifecycle asks for: running unless `Paused`, 30 s
/// for each grace period unless set, the deprecated spelling of the deletion
/// period read when the current one is absent.
pub fn lifecycle_from(lc: &LifecycleDto) -> (r: Result<Lifecycle, DtoError>)
    ensures
        match desired_spec(lc.desired_phase) {
            Some(d) => r matches Ok(l) && l.desired == d && l.pause_grace_secs == match lc.pause_grace_period_seconds {
                Some(s) => s,
                None => 30,
            } && l.deletion_grace_secs == match (lc.deletion_grace_period_seconds, lc.delete_grace_period_seconds) {
                (Some(s), _) => s,
                (None, Some(s)) => s,
                (None, None) => 30,
            },
            None => r matches Err(DtoError::DesiredPhase(t)) && lc.desired_phase == Some(t),
        },
{
    let desired = match desired_from(&lc.desired_phase) {
        Ok(d) => d,
        Err(e) => {
            return Err(e);
        },
    };
    let pause_grace_secs = match lc.pause_grace_period_seconds {
        Some(s) => s,
        None => 30,
    };
    let deletion_grace_secs = match (lc.deletion_grace_period_seconds, lc.delete_grace_period_seconds) {
        (Some(s), _) => s,
        (None, Some(s)) => s,
        (None, None) => 30,
    };
    Ok(Lifecycle { desired, pause_grace_secs, deletion_grace_secs })
}

/// How a paused pipeline resumes, from its annotation.
#[derive(Debug, Clone, Copy, PartialEq, Eq, Structural)]
pub enum ResumeStrategy {
    Slow,
    Fast,
}

/// The resume strategy the annotation asks for: none when absent, `slow`
/// or `fast`; any other value is refused.
pub fn resume_strategy_from(annotation: &Option<String>) -> (r: Result<Option<ResumeStrategy>, DtoError>)
    ensures
        match annotation {
            None => r == Ok::<Option<ResumeStrategy>, DtoError>(None),
            Some(t) => if t@ == "slow"@ {
                r == Ok::<Option<ResumeStrategy>, DtoError>(Some(ResumeStrategy::Slow))
            } else if t@ == "fast"@ {
                r == Ok::<Option<ResumeStrategy>, DtoError>(Some(ResumeStrategy::Fast))
            } else {
                r matches Err(DtoError::ResumeStrategy(o)) && o@ == t@
            },
        },
{
    match annotation {
        None => Ok(None),
        Some(t) => {
            if is_text(t, "slow") {
                Ok(Some(ResumeStrategy::Slow))
            } else if is_text(t, "fast") {
                Ok(Some(ResumeStrategy::Fast))
            } else {
                Err(DtoError::ResumeStrategy(t.clone()))
            }
        },
    }
}

/// The status the operator writes. When it was last updated is not carried:
/// it is a wall-clock time the domain only shows.
#[derive(Debug, Clone, PartialEq, Eq)]
pub struct PipelineStatusDto {
    pub phase: Option<String>,
    pub message: Option<String>,
    pub conditions: Vec<ConditionDto>,
    pub observed_generation: Option<i64>,
    pub drained_on_pause: bool,
    pub vertex_count: Option<u32>,
    pub source_count: Option<u32>,
    pub sink_count: Option<u32>,
    pub udf_count: Option<u32>,
    pub map_udf_count: Option<u32>,
    pub reduce_udf_count: Option<u32>,
}

/// How many vertices of each kind the status reports.
#[derive(Debug, Clone, Copy, PartialEq, Eq, Structural)]
pub struct VertexCounts {
    pub total: u32,
    pub sources: u32,
    pub sinks: u32,
    pub udfs: u32,
    pub map_udfs: u32,
    pub reduce_udfs: u32,
}

/// A pipeline's status as the domain reads it. The phase is kept as written,
/// any text accepted; `None` when the status gives none, which reads as
/// unknown.
#[derive(Debug, Clone, PartialEq, Eq)]
pub struct PipelineStatus {
    pub phase: Option<String>,
    pub message: Option<String>,
    pub conditions: Vec<Condition>,
    pub observed_generation: Option<i64>,
    pub drained_on_pause: bool,
    pub counts: VertexCounts,
}

/// A count the status may leave out, zero when it does.
pub open spec fn count_or_zero(c: Option<u32>) -> u32 {
    match c {
        Some(n) => n,
        None => 0,
    }
}

fn or_zero(c: Option<u32>) -> (r: u32)
    ensures
        r == count_or_zero(c),
{
    match c {
        Some(n) => n,
        None => 0,
    }
}

/// The status a wire status describes: the phase as written, leniently (no
/// text is refused); the message only when it says something; each
/// condition `ok` when its status is `True`; every missing count zero.
pub fn status_from(st: &PipelineStatusDto) -> (r: PipelineStatus)
    ensures
        r.phase == st.phase,
        match st.message {
            Some(m) => if m@.len() > 0 { r.message matches Some(x) && x@ == m@ } else { r.message is None },
            None => r.message is None,
        },
        r.conditions@.len() == st.conditions@.len(),
        forall|i: int|
            0 <= i < st.conditions@.len() ==> {
                let c = #[trigger] r.conditions@[i];
                let d = st.conditions@[i];
                &&& c.kind@ == d.kind@
                &&& c.ok == (d.status@ == "True"@)
                &&& c.reason == d.reason
                &&& c.message == d.message
            },
        r.observed_generation == st.observed_generation,
        r.drained_on_pause == st.drained_on_pause,
        r.counts == (VertexCounts {
            total: count_or_zero(st.vertex_count),
            sources: count_or_zero(st.source_count),
            sinks: count_or_zero(st.sink_count),
            udfs: count_or_zero(st.udf_count),
            map_udfs: count_or_zero(st.map_udf_count),
            reduce_udfs: count_or_zero(st.reduce_udf_count),
        }),
{
    let message = match &st.message {
        Some(m) => {
            let empty = is_text(m, "");
            proof {
                reveal_strlit("");
                assert(""@ =~= Seq::<char>::empty());
                if m@.len() == 0 {
                    assert(m@ =~= Seq::<char>::empty());
                }
            }
            if !empty { Some(m.clone()) } else { None }
        },
        None => None,
    };
    let mut conditions: Vec<Condition> = Vec::new();
    let mut i: usize = 0;
    while i < st.conditions.len()
        invariant
            i <= st.conditions@.len(),
            conditions@.len() == i,
            forall|k: int|
                0 <= k < i ==> {
                    let c = #[trigger] conditions@[k];
                    let d = st.conditions@[k];
                    &&& c.kind@ == d.kind@
                    &&& c.ok == (d.status@ == "True"@)
                    &&& c.reason == d.reason
                    &&& c.message == d.message
                },
        decreases st.conditions@.len() - i,
    {
        conditions.push(condition_from(&st.conditions[i]));
        i += 1;
    }
    let counts = VertexCounts {
        total: or_zero(st.vertex_count),
        sources: or_zero(st.source_count),
        sinks: or_zero(st.sink_count),
        udfs: or_zero(st.udf_count),
        map_udfs: or_zero(st.map_udf_count),
        reduce_udfs: or_zero(st.reduce_udf_count),
    };
    PipelineStatus {
        phase: st.phase.clone(),
        message,
        conditions,
        observed_generation: st.observed_generation,
        drained_on_pause: st.drained_on_pause,
        counts,
    }
}

} // verus!
