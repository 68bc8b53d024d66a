use nfctl::dto::pod::{
    ContainerSpecDto, ContainerState, ContainerStatusDto, PodDto, PodSpecDto, PodStatusDto, into_pod_ref,
};

fn spec(name: &str, restart_policy: Option<&str>) -> ContainerSpecDto {
    ContainerSpecDto { name: name.to_owned(), restart_policy: restart_policy.map(str::to_owned) }
}

fn status(name: &str, running: bool, restart_count: i32) -> ContainerStatusDto {
    ContainerStatusDto { name: name.to_owned(), running, restart_count }
}

fn pod() -> PodDto {
    PodDto {
        name: Some("p-v-0-abc".to_owned()),
        default_container: Some("udf".to_owned()),
        spec: Some(PodSpecDto {
            containers: vec![spec("numa", None)],
            init_containers: Some(vec![spec("init", None), spec("udf", Some("Always"))]),
        }),
        status: Some(PodStatusDto {
            phase: Some("Running".to_owned()),
            container_statuses: Some(vec![status("numa", true, 0)]),
            init_container_statuses: Some(vec![status("init", false, 0), status("udf", true, 2)]),
        }),
    }
}

#[test]
fn sidecar_init_containers_are_not_init() {
    let r = into_pod_ref(&pod()).unwrap();
    let by = |n: &str| -> ContainerState { r.containers.iter().find(|c| c.name == n).unwrap().clone() };
    assert!(by("init").is_init);
    assert!(!by("init").running);
    assert!(!by("udf").is_init, "sidecar must not count as init");
    assert!(by("udf").running);
    assert_eq!(by("udf").restart_count, 2);
    assert_eq!(r.default_container.as_deref(), Some("udf"));
}

#[test]
fn pods_list_their_containers_main_first() {
    let r = into_pod_ref(&pod()).unwrap();
    let names: Vec<&str> = r.containers.iter().map(|c| c.name.as_str()).collect();
    assert_eq!(names, ["numa", "init", "udf"]);
    assert_eq!(r.phase.as_deref(), Some("Running"));
    let mut odd = pod();
    odd.default_container = Some("Not_A_Label".to_owned());
    odd.spec.as_mut().unwrap().containers.push(spec("Bad_Name", None));
    odd.status.as_mut().unwrap().container_statuses = Some(vec![status("numa", true, -1)]);
    let r = into_pod_ref(&odd).unwrap();
    assert_eq!(r.containers.len(), 3, "a name that is no DNS label is skipped");
    assert_eq!(r.containers[0].restart_count, 0);
    assert_eq!(r.default_container, None);
    assert!(into_pod_ref(&PodDto { name: None, ..pod() }).is_none());
    let bare = into_pod_ref(&PodDto { spec: None, status: None, ..pod() }).unwrap();
    assert!(bare.containers.is_empty() && bare.phase.is_none());
}
