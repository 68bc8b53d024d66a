//! The MonoVertex resource's wire shape, and the domain value read from it.

use vstd::prelude::*;

use crate::dto::pipeline::{ConditionDto, condition_from};
use crate::dto::{Condition, DesiredPhase, DtoError, desired_from, desired_spec};

verus! {

#[derive(Debug, Clone, PartialEq, Eq)]
pub struct LifecycleDto {
    pub desired_phase: Option<String>,
}

/// The source part of the spec: whether it sets a transformer.
#[derive(Debug, Clone, Copy, PartialEq, Eq, Structural)]
pub struct SourceDto {
    pub transformer: bool,
}

/// The sink part of the spec: whether it sets a fallback sink.
#[derive(Debug, Clone, Copy, PartialEq, Eq, Structural)]
pub struct SinkDto {
    pub fallback: bool,
}

#[derive(Debug, Clone, PartialEq, Eq)]
pub struct MonoVertexSpecDto {
    pub replicas: Option<u32>,
    pub source: Option<SourceDto>,
    /// Whether the spec sets a map UDF.
    pub udf: bool,
    pub sink: Option<SinkDto>,
    pub lifecycle: LifecycleDto,
}

#[derive(Debug, Clone, PartialEq, Eq)]
pub struct MonoVertexStatusDto {
    pub phase: Option<String>,
    pub message: Option<String>,
    pub replicas: Option<u32>,
    pub desired_replicas: Option<u32>,
    pub ready_replicas: Option<u32>,
    pub conditions: Vec<ConditionDto>,
}

/// A MonoVertex as the domain reads it: what it is asked to do, what its
/// status says, and which containers its pod chains together.
#[derive(Debug, Clone, PartialEq, Eq)]
pub struct MonoVertex {
    pub desired: DesiredPhase,
    /// The phase as the status writes it, absent when it says none.
    pub phase: Option<String>,
    pub replicas: u32,
    pub desired_replicas: Option<u32>,
    pub ready_replicas: Option<u32>,
    pub has_transformer: bool,
    pub has_map: bool,
    pub has_fallback: bool,
    /// The status message, absent when empty.
    pub message: Option<String>,
    pub conditions: Vec<Condition>,
}

/// The MonoVertex a spec and a status describe; a missing status reads as
/// an empty one. Refused only when the desired phase is unknown.
pub fn monovertex_from(spec: &MonoVertexSpecDto, status: &Option<MonoVertexStatusDto>) -> (r: Result<
    MonoVertex,
    DtoError,
>)
    ensures
        match desired_spec(spec.lifecycle.desired_phase) {
            None => r matches Err(DtoError::DesiredPhase(t)) && spec.lifecycle.desired_phase == Some(t),
            Some(d) => r matches Ok(m) && {
                &&& m.desired == d
                &&& m.has_transformer == (spec.source matches Some(s) && s.transformer)
                &&& m.has_map == spec.udf
                &&& m.has_fallback == (spec.sink matches Some(s) && s.fallback)
                &&& match status {
                    None => {
                        &&& m.phase is None
                        &&& m.replicas == 0
                        &&& m.desired_replicas is None
                        &&& m.ready_replicas is None
                        &&& m.message is None
                        &&& m.conditions@.len() == 0
                    },
                    Some(st) => {
                        &&& m.phase == st.phase
                        &&& m.replicas == match st.replicas {
                            Some(n) => n,
                            None => 0,
                        }
                        &&& m.desired_replicas == st.desired_replicas
                        &&& m.ready_replicas == st.ready_replicas
                        &&& m.message == match st.message {
                            Some(t) => if t@.len() > 0 {
                                Some(t)
                            } else {
                                None
                            },
                            None => None,
                        }
                        &&& m.conditions@.len() == st.conditions@.len()
                        &&& forall|i: int|
                            0 <= i < st.conditions@.len() ==> {
                                let c = #[trigger] m.conditions@[i];
                                let w = st.conditions@[i];
                                &&& c.kind@ == w.kind@
                                &&& c.ok == (w.status@ == "True"@)
                                &&& c.reason == w.reason
                                &&& c.message == w.message
                            }
                    },
                }
            },
        },
{
    let desired = match desired_from(&spec.lifecycle.desired_phase) {
        Ok(d) => d,
        Err(e) => {
            return Err(e);
        },
    };
    let has_transformer = match spec.source {
        Some(s) => s.transformer,
        None => false,
    };
    let has_fallback = match spec.sink {
        Some(s) => s.fallback,
        None => false,
    };
    match status {
        None => Ok(MonoVertex {
            desired,
            phase: None,
            replicas: 0,
            desired_replicas: None,
            ready_replicas: None,
            has_transformer,
            has_map: spec.udf,
            has_fallback,
            message: None,
            conditions: Vec::new(),
        }),
        Some(st) => {
            let message = match &st.message {
                Some(t) => if t.as_str().unicode_len() > 0 {
                    Some(t.clone())
                } else {
                    None
                },
                None => None,
            };
            let mut conditions: Vec<Condition> = Vec::new();
            let mut i: usize = 0;
            while i < st.conditions.len()
                invariant
                    i <= st.conditions@.len(),
                    conditions@.len() == i,
                    forall|j: int|
                        0 <= j < i ==> {
                            let c = #[trigger] conditions@[j];
                            let w = st.conditions@[j];
                            &&& c.kind@ == w.kind@
                            &&& c.ok == (w.status@ == "True"@)
                            &&& c.reason == w.reason
                            &&& c.message == w.message
                        },
                decreases st.conditions.len() - i,
            {
                conditions.push(condition_from(&st.conditions[i]));
                i += 1;
            }
            Ok(MonoVertex {
                desired,
                phase: st.phase.clone(),
                replicas: match st.replicas {
                    Some(n) => n,
                    None => 0,
                },
                desired_replicas: st.desired_replicas,
                ready_replicas: st.ready_replicas,
                has_transformer,
                has_map: spec.udf,
                has_fallback,
                message,
                conditions,
            })
        },
    }
}

} // verus!
