//! The InterStepBufferService resource's wire shape, and what the domain
//! reads of it: how many replicas run and whether it is ready.

use vstd::prelude::*;

use crate::dto::{is_text, opt_is};
use crate::dto::pipeline::ConditionDto;

verus! {

#[derive(Debug, Clone, PartialEq, Eq)]
pub struct IsbStatusDto {
    pub phase: Option<String>,
    pub conditions: Vec<ConditionDto>,
}

/// Replicas of a JetStream buffer: three unless more are asked for.
pub open spec fn isb_replicas_spec(asked: Option<u32>) -> u32 {
    match asked {
        Some(n) => if n < 3 { 3 } else { n },
        None => 3,
    }
}

/// Replicas of a JetStream buffer: three unless more are asked for. The
/// operator raises fewer to three, so the table matches what runs.
pub fn isb_replicas(asked: Option<u32>) -> (r: u32)
    ensures
        r == isb_replicas_spec(asked),
{
    match asked {
        Some(n) => if n < 3 { 3 } else { n },
        None => 3,
    }
}

/// Ready when it reports conditions and every one of them is `True`; the
/// controller reports no `Ready` condition of its own.
pub fn conditions_ready(st: &IsbStatusDto) -> (r: bool)
    ensures
        r == (st.conditions@.len() > 0 && forall|i: int| 0 <= i < st.conditions@.len() ==> (#[trigger] st.conditions@[i]).status@ == "True"@),
{
    if st.conditions.len() == 0 {
        return false;
    }
    let mut i: usize = 0;
    while i < st.conditions.len()
        invariant
            i <= st.conditions@.len(),
            forall|j: int| 0 <= j < i ==> (#[trigger] st.conditions@[j]).status@ == "True"@,
        decreases st.conditions.len() - i,
    {
        if !is_text(&st.conditions[i].status, "True") {
            return false;
        }
        i += 1;
    }
    true
}

/// The JetStream part of the spec; the persistence settings are held as
/// whether they are given.
#[derive(Debug, Clone, PartialEq, Eq)]
pub struct JetStreamDto {
    pub version: Option<String>,
    pub replicas: Option<u32>,
    pub persistence: bool,
}

#[derive(Debug, Clone, PartialEq, Eq)]
pub struct IsbSpecDto {
    pub jetstream: Option<JetStreamDto>,
}

/// An InterStepBufferService as the domain reads it.
#[derive(Debug, Clone, PartialEq, Eq)]
pub struct IsbService {
    /// The JetStream version, empty when the spec gives none.
    pub version: String,
    pub replicas: u32,
    pub persistent: bool,
    /// The phase as the status writes it, absent when it says none.
    pub phase: Option<String>,
    /// Every condition true, and running or deleting.
    pub healthy: bool,
}

/// Whether a phase is one the buffer serves in: `Running` or `Deleting`.
pub open spec fn serving(phase: Option<String>) -> bool {
    opt_is(phase, "Running"@) || opt_is(phase, "Deleting"@)
}

/// The buffer service a spec and a status describe; a missing status reads
/// as an empty one.
pub fn isb_from(spec: &IsbSpecDto, status: &Option<IsbStatusDto>) -> (r: IsbService)
    ensures
        r.version@ == match spec.jetstream {
            Some(js) => match js.version {
                Some(v) => v@,
                None => Seq::<char>::empty(),
            },
            None => Seq::<char>::empty(),
        },
        r.replicas == isb_replicas_spec(match spec.jetstream {
            Some(js) => js.replicas,
            None => None,
        }),
        r.persistent == (spec.jetstream matches Some(js) && js.persistence),
        r.phase == match status {
            Some(st) => st.phase,
            None => None,
        },
        r.healthy == match status {
            Some(st) => st.conditions@.len() > 0 && (forall|i: int|
                0 <= i < st.conditions@.len() ==> (#[trigger] st.conditions@[i]).status@ == "True"@) && serving(st.phase),
            None => false,
        },
{
    let (version, replicas, persistent) = match &spec.jetstream {
        Some(js) => (
            match &js.version {
                Some(v) => v.clone(),
                None => String::new(),
            },
            isb_replicas(js.replicas),
            js.persistence,
        ),
        None => (String::new(), isb_replicas(None), false),
    };
    match status {
        Some(st) => {
            let ready = conditions_ready(st);
            let serves = match &st.phase {
                Some(p) => is_text(p, "Running") || is_text(p, "Deleting"),
                None => false,
            };
            IsbService { version, replicas, persistent, phase: st.phase.clone(), healthy: ready && serves }
        },
        None => IsbService { version, replicas, persistent, phase: None, healthy: false },
    }
}

} // verus!
