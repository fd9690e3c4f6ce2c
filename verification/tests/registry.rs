use grcache::crd::{DescriptorSetSource, GrcacheService, GrcacheServiceSpec, ObjectRef, Upstream};
use grcache::discovery::Handle;
use grcache::registry::{
    resource_before, ChangeReport, K8SConfigService, ServiceConfigState, UpdateKind,
};
use grcache::resource_change::{ChangeTracker, ResourceChange, WatchEvent};
use grcache::service::{
    DescriptorSet, FileDescriptor, GrcacheMethodOptions, MethodDescriptor, ServiceDescriptor,
};
use grcache::service_store::{ServiceConfigInner, ServiceData, UpdateOutcome};

fn resource(namespace: Option<&str>, name: &str, version: &str, service: &str) -> GrcacheService {
    GrcacheService {
        namespace: namespace.map(|n| n.to_string()),
        name: name.to_string(),
        resource_version: version.to_string(),
        spec: GrcacheServiceSpec {
            cluster: "default".to_string(),
            upstream_name: None,
            upstream: Upstream::Dns { url: format!("{}.svc", name), port: 50051 },
            service_name: service.to_string(),
            descriptor_set_source: None,
        },
    }
}

fn with_descriptors(mut r: GrcacheService) -> GrcacheService {
    r.spec.descriptor_set_source = Some(DescriptorSetSource::Inline { data: "".to_string() });
    r
}

fn object_ref(namespace: Option<&str>, name: &str) -> ObjectRef {
    ObjectRef { namespace: namespace.map(|n| n.to_string()), name: name.to_string() }
}

fn descriptors() -> DescriptorSet {
    DescriptorSet {
        files: vec![FileDescriptor {
            package: "pkg".to_string(),
            services: vec![ServiceDescriptor {
                name: "S".to_string(),
                methods: vec![MethodDescriptor {
                    name: "M".to_string(),
                    input_type: "pkg.In".to_string(),
                    output_type: "pkg.Out".to_string(),
                    options: Some(GrcacheMethodOptions { cache_ttl: 30, hash_on: vec![] }),
                }],
            }],
        }],
    }
}

fn change_names(changes: &[ResourceChange]) -> Vec<String> {
    changes
        .iter()
        .map(|c| match c {
            ResourceChange::Ready => "ready".to_string(),
            ResourceChange::Apply(r) => format!("apply {}@{}", r.name, r.resource_version),
            ResourceChange::Delete(r) => format!("delete {}", r.name),
        })
        .collect()
}

#[test]
fn snapshot_gives_applies_then_ready_and_deletes_what_is_gone() {
    let mut tracker = ChangeTracker::new();
    let mut out: Vec<ResourceChange> = Vec::new();
    out.extend(tracker.step(WatchEvent::InitApply(resource(None, "A", "v1", "pkg.A"))));
    out.extend(tracker.step(WatchEvent::InitApply(resource(None, "B", "v1", "pkg.B"))));
    out.extend(tracker.step(WatchEvent::InitDone));
    assert_eq!(change_names(&out), vec!["apply A@v1", "apply B@v1", "ready"]);

    let mut out: Vec<ResourceChange> = Vec::new();
    out.extend(tracker.step(WatchEvent::Init));
    out.extend(tracker.step(WatchEvent::InitApply(resource(None, "A", "v1", "pkg.A"))));
    out.extend(tracker.step(WatchEvent::InitDone));
    assert_eq!(change_names(&out), vec!["delete B", "ready"]);
}

#[test]
fn changes_are_told_by_the_version() {
    let mut tracker = ChangeTracker::new();
    let a1 = || resource(Some("ns"), "A", "v1", "pkg.A");
    assert_eq!(change_names(&tracker.step(WatchEvent::Apply(a1()))), vec!["apply A@v1"]);
    assert!(tracker.step(WatchEvent::Apply(a1())).is_empty());
    assert_eq!(
        change_names(&tracker.step(WatchEvent::Apply(resource(Some("ns"), "A", "v2", "pkg.A")))),
        vec!["apply A@v2"]
    );
    // The same name in another namespace is another resource.
    assert_eq!(
        change_names(&tracker.step(WatchEvent::Apply(resource(Some("other"), "A", "v2", "pkg.A")))),
        vec!["apply A@v2"]
    );
    assert_eq!(
        change_names(&tracker.step(WatchEvent::Apply(resource(None, "A", "v2", "pkg.A")))),
        vec!["apply A@v2"]
    );
    // A deletion is always passed on, known or not.
    assert_eq!(change_names(&tracker.step(WatchEvent::Delete(a1()))), vec!["delete A"]);
    assert_eq!(change_names(&tracker.step(WatchEvent::Delete(a1()))), vec!["delete A"]);
    // After its deletion the resource is new again.
    assert_eq!(change_names(&tracker.step(WatchEvent::Apply(a1()))), vec!["apply A@v1"]);
}

#[test]
fn snapshot_passes_on_changed_versions_only() {
    let mut tracker = ChangeTracker::new();
    tracker.step(WatchEvent::Apply(resource(None, "A", "v1", "pkg.A")));
    tracker.step(WatchEvent::Apply(resource(None, "B", "v1", "pkg.B")));
    tracker.step(WatchEvent::Apply(resource(None, "C", "v1", "pkg.C")));
    let mut out: Vec<ResourceChange> = Vec::new();
    out.extend(tracker.step(WatchEvent::Init));
    out.extend(tracker.step(WatchEvent::InitApply(resource(None, "B", "v2", "pkg.B"))));
    out.extend(tracker.step(WatchEvent::InitApply(resource(None, "D", "v1", "pkg.D"))));
    out.extend(tracker.step(WatchEvent::InitDone));
    assert_eq!(
        change_names(&out),
        vec!["apply B@v2", "apply D@v1", "delete A", "delete C", "ready"]
    );
    // An empty snapshot deletes the rest.
    let mut out: Vec<ResourceChange> = Vec::new();
    out.extend(tracker.step(WatchEvent::Init));
    out.extend(tracker.step(WatchEvent::InitDone));
    assert_eq!(change_names(&out), vec!["delete B", "delete D", "ready"]);
    assert_eq!(change_names(&tracker.step(WatchEvent::InitDone)), vec!["ready"]);
}

#[test]
fn table_update_is_taken_only_if_newer() {
    let data = |generation| ServiceData { generation, service_spec: None, load_balancer: None };
    let mut config = ServiceConfigInner::new();
    assert!(config.get("pkg.S").is_none());
    assert_eq!(config.update_service_if_newer("pkg.S".into(), data(5)), UpdateOutcome::Inserted);
    assert_eq!(config.get("pkg.S").unwrap().generation, 5);
    assert_eq!(config.update_service_if_newer("pkg.S".into(), data(5)), UpdateOutcome::Aborted);
    assert_eq!(config.update_service_if_newer("pkg.S".into(), data(4)), UpdateOutcome::Aborted);
    assert_eq!(config.get("pkg.S").unwrap().generation, 5);
    assert_eq!(config.update_service_if_newer("pkg.S".into(), data(9)), UpdateOutcome::Updated);
    assert_eq!(config.get("pkg.S").unwrap().generation, 9);
    // A late update of generation 7 does not undo generation 9.
    assert_eq!(config.update_service_if_newer("pkg.S".into(), data(7)), UpdateOutcome::Aborted);
    assert_eq!(config.get("pkg.S").unwrap().generation, 9);
    assert!(config.get("pkg.T").is_none());
    // An insert overwrites whatever is there.
    config.insert("pkg.S".into(), data(1));
    assert_eq!(config.get("pkg.S").unwrap().generation, 1);
}

#[test]
fn passthrough_resource_is_written_at_once() {
    let mut service = K8SConfigService::new();
    let mut dns = Handle::new();
    let report = service.on_change(
        &mut dns,
        ResourceChange::Apply(resource(Some("ns"), "a", "1", "pkg.S")),
    );
    let update = match report {
        ChangeReport::Applied(r) => {
            assert!(r.previous.is_none());
            r.update
        }
        _ => panic!("an apply is owed"),
    };
    assert_eq!(update.kind, UpdateKind::Passthrough);
    assert_eq!(update.generation, 0);
    assert_eq!(update.claimants, 1);
    assert!(update.started_discovery);
    assert!(update.fetch.is_none());

    let data = service.config().get("pkg.S").unwrap();
    assert_eq!(data.generation, 0);
    let spec = data.service_spec.unwrap();
    assert!(spec.passthrough);
    assert!(spec.methods.is_empty());
    assert_eq!(spec.name.package, "pkg");
    assert_eq!(spec.name.name, "S");
    let handle = data.load_balancer.unwrap();
    assert_eq!(handle.host, "a.svc");
    assert_eq!(handle.port, 50051);
    assert!(!service.config().ready);
}

#[test]
fn duplicate_claimants_are_settled_by_namespace_and_name() {
    let mut state = ServiceConfigState::new();
    let mut config = ServiceConfigInner::new();
    let mut dns = Handle::new();
    let host_of = |config: &ServiceConfigInner| {
        config.get("pkg.S").unwrap().load_balancer.unwrap().host.clone()
    };

    let r = state.apply(&mut config, &mut dns, resource(Some("b"), "x", "1", "pkg.S"));
    assert_eq!(r.update.claimants, 1);
    assert_eq!(host_of(&config), "x.svc");

    let r = state.apply(&mut config, &mut dns, resource(Some("a"), "z", "1", "pkg.S"));
    assert_eq!(r.update.claimants, 2);
    assert_eq!(host_of(&config), "z.svc");

    let r = state.apply(&mut config, &mut dns, resource(Some("a"), "y", "1", "pkg.S"));
    assert_eq!(r.update.claimants, 3);
    assert_eq!(host_of(&config), "y.svc");

    // A resource without namespace comes before any with one.
    let r = state.apply(&mut config, &mut dns, resource(None, "zz", "1", "pkg.S"));
    assert_eq!(r.update.claimants, 4);
    assert_eq!(host_of(&config), "zz.svc");
    assert_eq!(config.get("pkg.S").unwrap().generation, 3);

    let u = state.remove(&mut config, &mut dns, &object_ref(None, "zz")).unwrap();
    assert_eq!(u.claimants, 3);
    assert_eq!(host_of(&config), "y.svc");
    let u = state.remove(&mut config, &mut dns, &object_ref(Some("a"), "y")).unwrap();
    assert_eq!(u.kind, UpdateKind::Passthrough);
    assert_eq!(host_of(&config), "z.svc");
    assert!(state.remove(&mut config, &mut dns, &object_ref(Some("a"), "y")).is_none());
    assert_eq!(state.resource_count(), 2);
    assert_eq!(state.next_generation(), 6);
}

#[test]
fn resources_are_ordered_by_namespace_then_name() {
    let r = |ns: Option<&str>, name: &str| resource(ns, name, "1", "pkg.S");
    assert!(resource_before(&r(None, "z"), &r(Some(""), "a")));
    assert!(resource_before(&r(Some("a"), "z"), &r(Some("b"), "a")));
    assert!(resource_before(&r(Some("a"), "a"), &r(Some("a"), "b")));
    assert!(resource_before(&r(Some("a"), "a"), &r(Some("a"), "aa")));
    assert!(!resource_before(&r(Some("a"), "a"), &r(Some("a"), "a")));
    assert!(!resource_before(&r(Some("b"), "a"), &r(Some("a"), "z")));
    assert!(!resource_before(&r(Some("a"), "a"), &r(None, "z")));
    assert!(resource_before(&r(Some("A"), "a"), &r(Some("a"), "a")));
}

#[test]
fn removed_service_is_unloaded() {
    let mut service = K8SConfigService::new();
    let mut dns = Handle::new();
    service.on_change(&mut dns, ResourceChange::Apply(resource(Some("ns"), "a", "1", "pkg.S")));
    let report = service.on_change(&mut dns, ResourceChange::Delete(object_ref(Some("ns"), "a")));
    match report {
        ChangeReport::Deleted(Some(u)) => {
            assert_eq!(u.kind, UpdateKind::Unloaded);
            assert_eq!(u.claimants, 0);
            assert_eq!(u.generation, 1);
        }
        _ => panic!("a deletion is owed"),
    }
    let data = service.config().get("pkg.S").unwrap();
    assert_eq!(data.generation, 1);
    assert!(data.service_spec.is_none());
    assert!(data.load_balancer.is_none());
    // Deleting what is not there changes nothing.
    match service.on_change(&mut dns, ResourceChange::Delete(object_ref(Some("ns"), "a"))) {
        ChangeReport::Deleted(None) => {}
        _ => panic!("nothing is to be deleted"),
    }
    assert_eq!(service.registry().next_generation(), 2);
}

#[test]
fn resource_that_moves_to_another_service_updates_both() {
    let mut service = K8SConfigService::new();
    let mut dns = Handle::new();
    service.on_change(&mut dns, ResourceChange::Apply(resource(Some("ns"), "a", "1", "pkg.Old")));
    let report =
        service.on_change(&mut dns, ResourceChange::Apply(resource(Some("ns"), "a", "2", "pkg.New")));
    match report {
        ChangeReport::Applied(r) => {
            assert_eq!(r.update.kind, UpdateKind::Passthrough);
            assert_eq!(r.update.service_name, "pkg.New");
            assert_eq!(r.update.generation, 1);
            let previous = r.previous.unwrap();
            assert_eq!(previous.kind, UpdateKind::Unloaded);
            assert_eq!(previous.service_name, "pkg.Old");
            assert_eq!(previous.generation, 2);
            assert_eq!(previous.claimants, 0);
        }
        _ => panic!("an apply is owed"),
    }
    assert!(service.config().get("pkg.New").unwrap().load_balancer.is_some());
    assert!(service.config().get("pkg.Old").unwrap().load_balancer.is_none());
    assert_eq!(service.registry().resource_count(), 1);
}

#[test]
fn ready_is_set_once_the_watch_has_caught_up() {
    let mut service = K8SConfigService::new();
    let mut dns = Handle::new();
    assert!(!service.config().ready);
    assert!(matches!(service.on_change(&mut dns, ResourceChange::Ready), ChangeReport::Ready));
    assert!(service.config().ready);
    service.on_change(&mut dns, ResourceChange::Apply(resource(None, "a", "1", "pkg.S")));
    assert!(service.config().ready);
}

#[test]
fn descriptor_fetch_is_completed_with_its_generation() {
    let mut service = K8SConfigService::new();
    let mut dns = Handle::new();
    let report = service.on_change(
        &mut dns,
        ResourceChange::Apply(with_descriptors(resource(Some("ns"), "a", "1", "pkg.S"))),
    );
    let fetch = match report {
        ChangeReport::Applied(r) => {
            assert_eq!(r.update.kind, UpdateKind::FetchDescriptor);
            r.update.fetch.unwrap()
        }
        _ => panic!("an apply is owed"),
    };
    assert_eq!(fetch.generation, 0);
    assert_eq!(fetch.service_name, "pkg.S");
    // Nothing is written until the fetch is handed back.
    assert!(service.config().get("pkg.S").is_none());

    let (outcome, errors) = service.complete_descriptor_fetch(fetch, &descriptors()).unwrap();
    assert_eq!(outcome, UpdateOutcome::Inserted);
    assert!(errors.is_empty());
    let data = service.config().get("pkg.S").unwrap();
    assert_eq!(data.generation, 0);
    let spec = data.service_spec.unwrap();
    assert!(!spec.passthrough);
    assert_eq!(spec.methods.len(), 1);
    assert_eq!(spec.methods[0].cache_ttl(), Some(30));
    assert_eq!(data.load_balancer.unwrap().host, "a.svc");
}

#[test]
fn late_descriptor_fetch_does_not_undo_a_newer_update() {
    let mut service = K8SConfigService::new();
    let mut dns = Handle::new();
    let fetch = match service.on_change(
        &mut dns,
        ResourceChange::Apply(with_descriptors(resource(Some("ns"), "a", "1", "pkg.S"))),
    ) {
        ChangeReport::Applied(r) => r.update.fetch.unwrap(),
        _ => panic!("an apply is owed"),
    };
    // The resource changes to a passthrough before the fetch comes back.
    service.on_change(&mut dns, ResourceChange::Apply(resource(Some("ns"), "a", "2", "pkg.S")));
    assert_eq!(service.config().get("pkg.S").unwrap().generation, 1);

    let (outcome, _) = service.complete_descriptor_fetch(fetch, &descriptors()).unwrap();
    assert_eq!(outcome, UpdateOutcome::Aborted);
    let data = service.config().get("pkg.S").unwrap();
    assert_eq!(data.generation, 1);
    assert!(data.service_spec.unwrap().passthrough);
}

#[test]
fn descriptor_set_without_the_service_is_an_error() {
    let mut service = K8SConfigService::new();
    let mut dns = Handle::new();
    let fetch = match service.on_change(
        &mut dns,
        ResourceChange::Apply(with_descriptors(resource(Some("ns"), "a", "1", "pkg.Other"))),
    ) {
        ChangeReport::Applied(r) => r.update.fetch.unwrap(),
        _ => panic!("an apply is owed"),
    };
    assert!(service.complete_descriptor_fetch(fetch, &descriptors()).is_err());
    assert!(service.config().get("pkg.Other").is_none());
}

#[test]
fn service_name_without_package_is_not_written() {
    let mut service = K8SConfigService::new();
    let mut dns = Handle::new();
    match service.on_change(&mut dns, ResourceChange::Apply(resource(None, "a", "1", "NoPackage")))
    {
        ChangeReport::Applied(r) => {
            assert_eq!(r.update.kind, UpdateKind::InvalidServiceName);
            assert!(!r.update.started_discovery);
        }
        _ => panic!("an apply is owed"),
    }
    assert!(service.config().get("NoPackage").is_none());
}

#[test]
fn upstreams_of_one_host_share_a_handle() {
    let mut service = K8SConfigService::new();
    let mut dns = Handle::new();
    let mut a = resource(None, "a", "1", "pkg.A");
    let mut b = resource(None, "b", "1", "pkg.B");
    a.spec.upstream = Upstream::Dns { url: "shared.svc".into(), port: 50051 };
    b.spec.upstream = Upstream::Dns { url: "shared.svc".into(), port: 50051 };
    let first = match service.on_change(&mut dns, ResourceChange::Apply(a)) {
        ChangeReport::Applied(r) => r.update,
        _ => panic!("an apply is owed"),
    };
    let second = match service.on_change(&mut dns, ResourceChange::Apply(b)) {
        ChangeReport::Applied(r) => r.update,
        _ => panic!("an apply is owed"),
    };
    assert!(first.started_discovery);
    assert!(!second.started_discovery);
    assert_eq!(first.load_balancer.unwrap().id, second.load_balancer.unwrap().id);
}

#[test]
fn deleting_the_chosen_claimant_loads_the_next() {
    let mut service = K8SConfigService::new();
    let mut dns = Handle::new();
    service.on_change(&mut dns, ResourceChange::Apply(resource(Some("a"), "x", "1", "pkg.S")));
    service.on_change(
        &mut dns,
        ResourceChange::Apply(with_descriptors(resource(Some("b"), "y", "1", "pkg.S"))),
    );
    service.on_change(&mut dns, ResourceChange::Apply(resource(Some("c"), "z", "1", "pkg.T")));
    let other = service.config().get("pkg.T").unwrap().generation;

    // The chosen claimant goes; the one that is left names descriptors.
    match service.on_change(&mut dns, ResourceChange::Delete(object_ref(Some("a"), "x"))) {
        ChangeReport::Deleted(Some(u)) => {
            assert_eq!(u.service_name, "pkg.S");
            assert_eq!(u.kind, UpdateKind::FetchDescriptor);
            assert_eq!(u.claimants, 1);
            assert!(u.started_discovery);
            let fetch = u.fetch.unwrap();
            assert_eq!(fetch.generation, u.generation);
            assert_eq!(fetch.load_balancer.host, "y.svc");
        }
        _ => panic!("a deletion is owed"),
    }
    // The entries of other services stay as they were.
    assert_eq!(service.config().get("pkg.T").unwrap().generation, other);
    assert_eq!(service.config().get("pkg.S").unwrap().load_balancer.unwrap().host, "x.svc");
}

#[test]
fn the_chosen_claimant_does_not_depend_on_the_order_of_arrival() {
    let claimants = [(Some("b"), "x"), (Some("a"), "z"), (Some("a"), "y"), (None, "zz")];
    let orders: [[usize; 4]; 5] =
        [[0, 1, 2, 3], [3, 2, 1, 0], [1, 3, 0, 2], [2, 0, 3, 1], [3, 0, 1, 2]];
    for order in orders {
        let mut state = ServiceConfigState::new();
        let mut config = ServiceConfigInner::new();
        let mut dns = Handle::new();
        for at in order {
            let (namespace, name) = claimants[at];
            state.apply(&mut config, &mut dns, resource(namespace, name, "1", "pkg.S"));
        }
        let chosen = config.get("pkg.S").unwrap().load_balancer.unwrap();
        assert_eq!(chosen.host, "zz.svc");
        assert_eq!(state.resource_count(), 4);
    }
}
