use grcache::discovery::{
    resolved_backends, Backend, BackendSet, DiscoveryLoop, Handle, LoopNext, RETRY_BACKOFF_SECS,
};

fn endpoints(set: &BackendSet) -> Vec<(u32, u16)> {
    (0..set.len()).map(|i| (set.get(i).ip, set.get(i).port)).collect()
}

#[test]
fn backends_are_a_set_ordered_by_endpoint() {
    let mut set = BackendSet::new();
    assert!(set.insert(Backend::new(3, 80)));
    assert!(set.insert(Backend::new(1, 90)));
    assert!(set.insert(Backend::new(1, 80)));
    assert!(!set.insert(Backend { ip: 1, port: 90, weight: 5 }));
    assert_eq!(endpoints(&set), vec![(1, 80), (1, 90), (3, 80)]);
    assert_eq!(set.get(1).weight, 1);
    assert!(set.contains(Backend::new(3, 80).endpoint()));
    assert!(!set.contains(Backend::new(3, 81).endpoint()));
    assert_eq!(set.position(Backend::new(1, 90).endpoint()), Some(1));
    assert_eq!(Backend::new(0x0102_0304, 0x0506).endpoint(), 0x0102_0304_0506);
}

#[test]
fn backends_are_compared_by_endpoint() {
    assert!(Backend { ip: 1, port: 2, weight: 1 } == Backend { ip: 1, port: 2, weight: 9 });
    assert!(Backend::new(1, 2) != Backend::new(1, 3));
    assert!(Backend::new(1, 2) != Backend::new(2, 2));
}

#[test]
fn sets_are_sifted_and_compared() {
    let set = |items: &[(u32, u16)]| {
        let mut s = BackendSet::new();
        for (ip, port) in items {
            s.insert(Backend::new(*ip, *port));
        }
        s
    };
    let a = set(&[(1, 1), (2, 1), (3, 1)]);
    let b = set(&[(3, 1), (2, 1), (9, 9)]);
    assert_eq!(endpoints(&a.sift(&b, true)), vec![(2, 1), (3, 1)]);
    assert_eq!(endpoints(&a.sift(&b, false)), vec![(1, 1)]);
    assert_eq!(endpoints(&b.sift(&a, false)), vec![(9, 9)]);
    assert!(a.same_endpoints(&set(&[(3, 1), (1, 1), (2, 1)])));
    assert!(!a.same_endpoints(&b));
    assert!(!a.same_endpoints(&set(&[(1, 1), (2, 1)])));
    assert!(BackendSet::new().same_endpoints(&BackendSet::new()));
}

#[test]
fn resolution_gives_one_backend_for_each_address() {
    let set = resolved_backends(&vec![30, 10, 20, 10], 6379);
    assert_eq!(endpoints(&set), vec![(10, 6379), (20, 6379), (30, 6379)]);
    assert!((0..set.len()).all(|i| set.get(i).weight == 1));
    assert_eq!(resolved_backends(&vec![], 6379).len(), 0);
}

#[test]
fn discovery_publishes_changes_only_and_latches_ready() {
    let mut state = DiscoveryLoop::new(50051);
    assert!(!state.ready());
    assert_eq!(state.current().len(), 0);

    // A failure publishes nothing and does not make ready.
    assert_eq!(state.on_error(true), LoopNext::RetryAfterBackoff);
    assert_eq!(RETRY_BACKOFF_SECS, 1);
    assert!(!state.ready());

    let out = state.on_resolved(&vec![2, 1], true);
    assert!(out.changed && out.update_balancers);
    assert_eq!(out.next, LoopNext::SleepUntilExpiry);
    assert!(state.ready());
    assert_eq!(endpoints(state.current()), vec![(1, 50051), (2, 50051)]);

    // The same set again, in another order: nothing is published.
    let out = state.on_resolved(&vec![1, 2, 1], true);
    assert!(!out.changed && !out.update_balancers);
    assert_eq!(out.next, LoopNext::SleepUntilExpiry);

    // An empty answer is a change too; ready stays.
    let out = state.on_resolved(&vec![], true);
    assert!(out.changed);
    assert!(state.ready());
    assert_eq!(state.current().len(), 0);
    assert_eq!(state.on_error(true), LoopNext::RetryAfterBackoff);
    assert!(state.ready());
}

#[test]
fn discovery_stops_when_nobody_holds_the_handle() {
    let mut state = DiscoveryLoop::new(80);
    assert_eq!(state.on_error(false), LoopNext::Stop);
    let out = state.on_resolved(&vec![7], false);
    assert!(out.changed);
    assert!(!out.update_balancers);
    assert_eq!(out.next, LoopNext::Stop);
    // Nobody was there to be told: the handle did not become ready.
    assert!(!state.ready());
}

#[test]
fn handle_of_one_host_is_shared() {
    let mut registry = Handle::new();
    let (first, started) = registry.backends_for_hostname("redis.local".into(), 6379);
    assert!(started);
    assert_eq!(first.host, "redis.local");
    assert_eq!(first.port, 6379);
    let (again, started) = registry.backends_for_hostname("redis.local".into(), 6379);
    assert!(!started);
    assert_eq!(again.id, first.id);

    let (other_port, started) = registry.backends_for_hostname("redis.local".into(), 6380);
    assert!(started);
    assert_ne!(other_port.id, first.id);
    let (other_host, started) = registry.backends_for_hostname("redis.remote".into(), 6379);
    assert!(started);
    assert_ne!(other_host.id, first.id);
    assert_ne!(other_host.id, other_port.id);
    assert!(registry.has_consumers(first.id));
}

#[test]
fn dropped_handle_is_made_anew() {
    let mut registry = Handle::new();
    let (first, _) = registry.backends_for_hostname("a".into(), 1);
    let (second, _) = registry.backends_for_hostname("b".into(), 1);
    registry.handle_dropped(first.id);
    assert!(!registry.has_consumers(first.id));
    assert!(registry.has_consumers(second.id));
    // Dropping it again, or what never was, changes nothing.
    registry.handle_dropped(first.id);
    registry.handle_dropped(999);
    assert!(registry.has_consumers(second.id));

    let (anew, started) = registry.backends_for_hostname("a".into(), 1);
    assert!(started);
    assert_ne!(anew.id, first.id);
    assert_ne!(anew.id, second.id);
    let (b_again, started) = registry.backends_for_hostname("b".into(), 1);
    assert!(!started);
    assert_eq!(b_again.id, second.id);
}
