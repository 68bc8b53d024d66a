//! The parts of a Pod the log tailer reads: its name and phase, and per
//! container whether it runs, how often it restarted and whether it is an
//! init container that finishes before the others start.

use vstd::prelude::*;

use crate::dto::is_text;
use crate::model::{VertexName, valid_name};

verus! {

/// A container of the pod spec: its name and restart policy.
#[derive(Debug, Clone, PartialEq, Eq)]
pub struct ContainerSpecDto {
    pub name: String,
    pub restart_policy: Option<String>,
}

/// A container status: its name, whether its state is `running`, and its
/// restart count.
#[derive(Debug, Clone, PartialEq, Eq)]
pub struct ContainerStatusDto {
    pub name: String,
    pub running: bool,
    pub restart_count: i32,
}

#[derive(Debug, Clone, PartialEq, Eq)]
pub struct PodSpecDto {
    pub containers: Vec<ContainerSpecDto>,
    pub init_containers: Option<Vec<ContainerSpecDto>>,
}

#[derive(Debug, Clone, PartialEq, Eq)]
pub struct PodStatusDto {
    pub phase: Option<String>,
    pub container_statuses: Option<Vec<ContainerStatusDto>>,
    pub init_container_statuses: Option<Vec<ContainerStatusDto>>,
}

/// A pod: its name, the container its default-container annotation names,
/// its spec and its status.
#[derive(Debug, Clone, PartialEq, Eq)]
pub struct PodDto {
    pub name: Option<String>,
    pub default_container: Option<String>,
    pub spec: Option<PodSpecDto>,
    pub status: Option<PodStatusDto>,
}

/// A container as the tailer reads it.
#[derive(Debug, Clone, PartialEq, Eq)]
pub struct ContainerState {
    pub name: String,
    pub running: bool,
    pub restart_count: u32,
    pub is_init: bool,
}

/// A pod as the tailer reads it.
#[derive(Debug, Clone, PartialEq, Eq)]
pub struct PodRef {
    pub name: String,
    /// The phase as the status writes it, absent when it says none.
    pub phase: Option<String>,
    pub containers: Vec<ContainerState>,
    pub default_container: Option<String>,
}

/// The names of a list of containers.
pub open spec fn names_spec(cs: Seq<ContainerSpecDto>) -> Seq<Seq<char>> {
    cs.map_values(|c: ContainerSpecDto| c.name@)
}

/// Whether an init container is long-lived: a native sidecar, restarted
/// `Always`.
pub open spec fn sidecar(c: ContainerSpecDto) -> bool {
    match c.restart_policy {
        Some(p) => p@ == "Always"@,
        None => false,
    }
}

/// The init containers that finish before the others start, sidecars left
/// out, among the first `k`.
pub open spec fn finishing(cs: Seq<ContainerSpecDto>, k: int) -> Seq<Seq<char>>
    decreases k,
{
    if k <= 0 {
        Seq::empty()
    } else if sidecar(cs[k - 1]) {
        finishing(cs, k - 1)
    } else {
        finishing(cs, k - 1).push(cs[k - 1].name@)
    }
}

/// The spec's init containers, none when it lists none.
pub open spec fn inits_spec(spec: PodSpecDto) -> Seq<ContainerSpecDto> {
    match spec.init_containers {
        Some(v) => v@,
        None => Seq::empty(),
    }
}

/// The containers the spec declares: the main ones, then every init one.
pub open spec fn declared_spec(spec: Option<PodSpecDto>) -> Seq<Seq<char>> {
    match spec {
        Some(s) => names_spec(s.containers@) + names_spec(inits_spec(s)),
        None => Seq::empty(),
    }
}

/// The init containers that are init for tailing: every one but the sidecars.
pub open spec fn init_names_spec(spec: Option<PodSpecDto>) -> Seq<Seq<char>> {
    match spec {
        Some(s) => finishing(inits_spec(s), inits_spec(s).len() as int),
        None => Seq::empty(),
    }
}

/// The statuses the pod reports: the main containers', then the init ones'.
pub open spec fn statuses_spec(status: Option<PodStatusDto>) -> Seq<ContainerStatusDto> {
    match status {
        Some(st) => (match st.container_statuses {
            Some(v) => v@,
            None => Seq::empty(),
        }) + (match st.init_container_statuses {
            Some(v) => v@,
            None => Seq::empty(),
        }),
        None => Seq::empty(),
    }
}

/// The first status from `k` on of the container named `name`.
pub open spec fn status_of(sts: Seq<ContainerStatusDto>, name: Seq<char>, k: int) -> Option<ContainerStatusDto>
    decreases sts.len() - k,
{
    if k < 0 || k >= sts.len() {
        None
    } else if sts[k].name@ == name {
        Some(sts[k])
    } else {
        status_of(sts, name, k + 1)
    }
}

/// A container named `name` as the tailer reads it: running and restarts
/// from its first status, none when it reports none; a restart count below
/// zero reads as zero.
pub open spec fn state_spec(name: Seq<char>, sts: Seq<ContainerStatusDto>, inits: Seq<Seq<char>>) -> (Seq<char>, bool, u32, bool) {
    match status_of(sts, name, 0) {
        Some(s) => (name, s.running, if s.restart_count < 0 { 0u32 } else { s.restart_count as u32 }, inits.contains(name)),
        None => (name, false, 0u32, inits.contains(name)),
    }
}

/// The first `k` declared containers as the tailer reads them, those whose
/// names are not DNS labels left out.
pub open spec fn states_spec(decl: Seq<Seq<char>>, sts: Seq<ContainerStatusDto>, inits: Seq<Seq<char>>, k: int) -> Seq<
    (Seq<char>, bool, u32, bool),
>
    decreases k,
{
    if k <= 0 {
        Seq::empty()
    } else if valid_name(decl[k - 1]) {
        states_spec(decl, sts, inits, k - 1).push(state_spec(decl[k - 1], sts, inits))
    } else {
        states_spec(decl, sts, inits, k - 1)
    }
}

/// A container state as plain values.
pub open spec fn state_view(c: ContainerState) -> (Seq<char>, bool, u32, bool) {
    (c.name@, c.running, c.restart_count, c.is_init)
}

/// Copy the names of a list of containers.
fn names_of(cs: &Vec<ContainerSpecDto>, out: &mut Vec<String>)
    ensures
        final(out)@.map_values(|s: String| s@) == old(out)@.map_values(|s: String| s@) + names_spec(cs@),
{
    let ghost start = out@.map_values(|s: String| s@);
    let mut i: usize = 0;
    while i < cs.len()
        invariant
            i <= cs@.len(),
            out@.map_values(|s: String| s@) == start + names_spec(cs@).take(i as int),
        decreases cs.len() - i,
    {
        let ghost before = out@;
        out.push(cs[i].name.clone());
        proof {
            assert(out@ == before.push(cs@[i as int].name));
            assert(out@.map_values(|s: String| s@) =~= before.map_values(|s: String| s@).push(cs@[i as int].name@));
            assert(names_spec(cs@).take(i + 1) =~= names_spec(cs@).take(i as int).push(cs@[i as int].name@));
            assert(out@.map_values(|s: String| s@) =~= start + names_spec(cs@).take(i + 1));
        }
        i += 1;
    }
    proof {
        assert(names_spec(cs@).take(cs@.len() as int) =~= names_spec(cs@));
    }
}

/// Copy a list of statuses onto the end of another.
fn statuses_onto(from: &Vec<ContainerStatusDto>, out: &mut Vec<ContainerStatusDto>)
    ensures
        final(out)@ == old(out)@ + from@,
{
    let ghost start = out@;
    let mut i: usize = 0;
    while i < from.len()
        invariant
            i <= from@.len(),
            out@ == start + from@.take(i as int),
        decreases from.len() - i,
    {
        let s = &from[i];
        out.push(ContainerStatusDto { name: s.name.clone(), running: s.running, restart_count: s.restart_count });
        proof {
            assert(out@ =~= start + from@.take(i + 1));
        }
        i += 1;
    }
    proof {
        assert(from@.take(from@.len() as int) =~= from@);
    }
}

/// Whether `name` is among `names`.
fn listed(names: &Vec<String>, name: &String) -> (r: bool)
    ensures
        r == names@.map_values(|s: String| s@).contains(name@),
{
    let mut i: usize = 0;
    while i < names.len()
        invariant
            i <= names@.len(),
            forall|j: int| 0 <= j < i ==> (#[trigger] names@[j])@ != name@,
        decreases names.len() - i,
    {
        if is_text(&names[i], name.as_str()) {
            proof {
                assert(names@.map_values(|s: String| s@)[i as int] == name@);
            }
            return true;
        }
        i += 1;
    }
    proof {
        if names@.map_values(|s: String| s@).contains(name@) {
            let v = names@.map_values(|s: String| s@);
            let j = choose|j: int| 0 <= j < v.len() && #[trigger] v[j] == name@;
            assert(names@[j]@ == name@);
        }
    }
    false
}

/// Project a pod onto what the tailer needs: none without a name. Every
/// declared container whose name is a DNS label is listed, the main ones
/// first, with its first status; an init container counts as init unless it
/// is a native sidecar, restarted `Always`, which runs as long as the pod.
pub fn into_pod_ref(pod: &PodDto) -> (r: Option<PodRef>)
    ensures
        r is Some <==> pod.name is Some,
        r matches Some(p) ==> {
            &&& p.name@ == pod.name->0@
            &&& p.phase == match pod.status {
                Some(st) => st.phase,
                None => None,
            }
            &&& p.containers@.map_values(|c: ContainerState| state_view(c)) == states_spec(
                declared_spec(pod.spec),
                statuses_spec(pod.status),
                init_names_spec(pod.spec),
                declared_spec(pod.spec).len() as int,
            )
            &&& p.default_container == match pod.default_container {
                Some(d) => if valid_name(d@) {
                    Some(d)
                } else {
                    None
                },
                None => None,
            }
        },
{
    let name = match &pod.name {
        Some(n) => n.clone(),
        None => {
            return None;
        },
    };
    let phase = match &pod.status {
        Some(st) => st.phase.clone(),
        None => None,
    };
    let mut declared: Vec<String> = Vec::new();
    let mut inits: Vec<String> = Vec::new();
    match &pod.spec {
        Some(s) => {
            names_of(&s.containers, &mut declared);
            match &s.init_containers {
                Some(v) => {
                    names_of(v, &mut declared);
                    let mut i: usize = 0;
                    while i < v.len()
                        invariant
                            i <= v@.len(),
                            inits@.map_values(|s: String| s@) == finishing(v@, i as int),
                        decreases v.len() - i,
                    {
                        let side = match &v[i].restart_policy {
                            Some(p) => is_text(p, "Always"),
                            None => false,
                        };
                        if !side {
                            let ghost before = inits@;
                            inits.push(v[i].name.clone());
                            proof {
                                assert(inits@.map_values(|s: String| s@) =~= finishing(v@, i as int).push(v@[i as int].name@)) by {
                                    assert forall|j: int| 0 <= j < before.len() implies inits@[j]@ == before[j]@ by {
                                        assert(inits@[j] == before[j]);
                                    }
                                }
                            }
                        }
                        i += 1;
                    }
                },
                None => {
                    proof {
                        assert(names_spec(Seq::<ContainerSpecDto>::empty()) =~= Seq::<Seq<char>>::empty());
                        assert(declared@.map_values(|s: String| s@) =~= declared_spec(pod.spec));
                        assert(inits@.map_values(|s: String| s@) =~= init_names_spec(pod.spec));
                    }
                },
            }
        },
        None => {
            proof {
                assert(declared@.map_values(|s: String| s@) =~= declared_spec(pod.spec));
                assert(inits@.map_values(|s: String| s@) =~= init_names_spec(pod.spec));
            }
        },
    }
    proof {
        assert(declared@.map_values(|s: String| s@) =~= declared_spec(pod.spec));
        assert(inits@.map_values(|s: String| s@) =~= init_names_spec(pod.spec));
    }
    let mut statuses: Vec<ContainerStatusDto> = Vec::new();
    if let Some(st) = &pod.status {
        if let Some(v) = &st.container_statuses {
            statuses_onto(v, &mut statuses);
        }
        if let Some(v) = &st.init_container_statuses {
            statuses_onto(v, &mut statuses);
        }
    }
    proof {
        assert(statuses@ =~= statuses_spec(pod.status));
    }
    let ghost decl = declared_spec(pod.spec);
    let ghost sts = statuses_spec(pod.status);
    let ghost ins = init_names_spec(pod.spec);
    let mut containers: Vec<ContainerState> = Vec::new();
    let mut k: usize = 0;
    while k < declared.len()
        invariant
            k <= declared@.len(),
            declared@.map_values(|s: String| s@) == decl,
            statuses@ == sts,
            inits@.map_values(|s: String| s@) == ins,
            containers@.map_values(|c: ContainerState| state_view(c)) == states_spec(decl, sts, ins, k as int),
        decreases declared.len() - k,
    {
        let d = &declared[k];
        proof {
            assert(decl[k as int] == d@);
        }
        if VertexName::new(d.as_str()).is_ok() {
            let mut j: usize = 0;
            while j < statuses.len() && !is_text(&statuses[j].name, d.as_str())
                invariant
                    j <= statuses@.len(),
                    status_of(statuses@, d@, 0) == status_of(statuses@, d@, j as int),
                decreases statuses.len() - j,
            {
                j += 1;
            }
            let is_init = listed(&inits, d);
            let state = if j < statuses.len() {
                let s = &statuses[j];
                ContainerState {
                    name: d.clone(),
                    running: s.running,
                    restart_count: if s.restart_count < 0 { 0 } else { s.restart_count as u32 },
                    is_init,
                }
            } else {
                ContainerState { name: d.clone(), running: false, restart_count: 0, is_init }
            };
            let ghost before = containers@;
            containers.push(state);
            proof {
                assert(containers@.map_values(|c: ContainerState| state_view(c)) =~= states_spec(decl, sts, ins, k + 1)) by {
                    assert forall|q: int| 0 <= q < before.len() implies state_view(containers@[q]) == state_view(before[q]) by {
                        assert(containers@[q] == before[q]);
                    }
                }
            }
        } else {
            proof {
                assert(states_spec(decl, sts, ins, k + 1) == states_spec(decl, sts, ins, k as int));
            }
        }
        k += 1;
    }
    let default_container = match &pod.default_container {
        Some(d) => if VertexName::new(d.as_str()).is_ok() {
            Some(d.clone())
        } else {
            None
        },
        None => None,
    };
    Some(PodRef { name, phase, containers, default_container })
}

} // verus!
