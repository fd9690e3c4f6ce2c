use grcache::cache::{
    redis_url, redis_url_text, decode_entry, encode_entry, stored_size, CacheData, FetchResult, MockMissHandler, MockStorage,
    RedisCacheHit, RedisPools, RedisReplicasCacheBackend, StoreResult, ENTRY_VERSION, MAX_PROBES,
};
use grcache::discovery::{Backend, BackendSet};
use grcache::ring::{parse_address, parse_endpoint, push_decimal, push_endpoint, HashRing};

fn backends(addrs: &[(u32, u16)]) -> BackendSet {
    let mut set = BackendSet::new();
    for (ip, port) in addrs {
        set.insert(Backend::new(*ip, *port));
    }
    set
}

fn ip(a: u8, b: u8, c: u8, d: u8) -> u32 {
    u32::from_be_bytes([a, b, c, d])
}

fn text_of(ip: u32, port: u16) -> String {
    let o = ip.to_be_bytes();
    format!("{}.{}.{}.{}:{}", o[0], o[1], o[2], o[3], port)
}

/// What `pingora-ketama` itself picks first for a key, as text.
fn ketama_first(addrs: &[(u32, u16)], key: &[u8]) -> String {
    let mut sorted = addrs.to_vec();
    sorted.sort_by_key(|(ip, port)| (*ip as u64) * 65536 + *port as u64);
    let buckets: Vec<pingora_ketama::Bucket> = sorted
        .iter()
        .map(|(ip, port)| pingora_ketama::Bucket::new((ip.to_be_bytes(), *port).into(), 1))
        .collect();
    let ring = pingora_ketama::Continuum::new(&buckets);
    ring.node(key).unwrap().to_string()
}

#[test]
fn entry_is_version_byte_and_three_fields() {
    let entry = CacheData { cache_meta: (vec![1, 2], vec![]), data: vec![9, 8, 7] };
    let blob = encode_entry(&entry);
    assert_eq!(
        blob,
        vec![
            0, // version
            2, 0, 0, 0, 0, 0, 0, 0, 1, 2, // first blob
            0, 0, 0, 0, 0, 0, 0, 0, // second blob
            3, 0, 0, 0, 0, 0, 0, 0, 9, 8, 7, // body
        ]
    );
    assert_eq!(blob[0], ENTRY_VERSION);
    let back = decode_entry(&blob).unwrap();
    assert_eq!(back.cache_meta, (vec![1, 2], vec![]));
    assert_eq!(back.data, vec![9, 8, 7]);
}

#[test]
fn entry_that_cannot_be_read_is_absent() {
    let entry = CacheData { cache_meta: (vec![1, 2], vec![3]), data: vec![4; 300] };
    let blob = encode_entry(&entry);
    assert!(decode_entry(&blob).is_some());
    assert!(decode_entry(&[]).is_none());
    assert!(decode_entry(&[0]).is_none());
    let mut other_version = blob.clone();
    other_version[0] = 1;
    assert!(decode_entry(&other_version).is_none());
    for cut in [1, 5, 9, 10, 12, blob.len() - 1] {
        assert!(decode_entry(&blob[..cut]).is_none(), "cut at {}", cut);
    }
    // A length that runs past the end, even a huge one, is no entry.
    let mut huge = vec![0u8];
    huge.extend_from_slice(&u64::MAX.to_le_bytes());
    assert!(decode_entry(&huge).is_none());
    // Bytes behind the body are passed over.
    let mut longer = blob.clone();
    longer.extend_from_slice(b"trailing");
    assert_eq!(decode_entry(&longer).unwrap().data, vec![4; 300]);
}

#[test]
fn empty_entry_round_trips() {
    let entry = CacheData { cache_meta: (vec![], vec![]), data: vec![] };
    let blob = encode_entry(&entry);
    assert_eq!(blob.len(), 25);
    let back = decode_entry(&blob).unwrap();
    assert!(back.cache_meta.0.is_empty() && back.cache_meta.1.is_empty() && back.data.is_empty());
}

#[test]
fn selection_follows_the_ketama_ring() {
    let addrs = [(ip(1, 1, 1, 1), 80), (ip(1, 0, 0, 1), 80), (ip(1, 0, 0, 255), 80)];
    let set = backends(&addrs);
    let ring = HashRing::build(&set).unwrap();
    let nobody = BackendSet::new();
    for key in ["test0", "test1", "test2", "test3", "another", ""] {
        let got = ring.select_with(key.as_bytes(), MAX_PROBES, &set, &nobody).unwrap();
        assert_eq!(text_of(got.ip, got.port), ketama_first(&addrs, key.as_bytes()), "key {:?}", key);
    }
    // What the load balancer of `pingora` reports for these backends.
    let pick = |key: &[u8]| {
        let b = ring.select_with(key, MAX_PROBES, &set, &nobody).unwrap();
        (b.ip, b.port)
    };
    assert_eq!(pick(b"test0"), (ip(1, 0, 0, 1), 80));
    assert_eq!(pick(b"test1"), (ip(1, 1, 1, 1), 80));
    assert_eq!(pick(b"test2"), (ip(1, 1, 1, 1), 80));
}

#[test]
fn selection_is_the_same_wherever_the_ring_is_built() {
    let addrs = [(ip(10, 0, 0, 1), 6379), (ip(10, 0, 0, 2), 6379), (ip(10, 0, 0, 3), 6379)];
    let one = HashRing::build(&backends(&addrs)).unwrap();
    let reversed: Vec<(u32, u16)> = addrs.iter().rev().cloned().collect();
    let other = HashRing::build(&backends(&reversed)).unwrap();
    let all = backends(&addrs);
    let nobody = BackendSet::new();
    for i in 0..200u32 {
        let key = i.to_le_bytes();
        let a = one.select_with(&key, MAX_PROBES, &all, &nobody).unwrap();
        let b = other.select_with(&key, MAX_PROBES, &all, &nobody).unwrap();
        assert!(a == b);
    }
}

#[test]
fn selection_skips_what_may_not_be_taken() {
    let addrs = [(ip(10, 0, 0, 1), 6379), (ip(10, 0, 0, 2), 6379), (ip(10, 0, 0, 3), 6379)];
    let set = backends(&addrs);
    let ring = HashRing::build(&set).unwrap();
    let nobody = BackendSet::new();
    let key = b"some key";
    let first = ring.select_with(key, MAX_PROBES, &set, &nobody).unwrap();

    // Without its pool the first choice is passed over.
    let rest: Vec<(u32, u16)> =
        addrs.iter().cloned().filter(|a| *a != (first.ip, first.port)).collect();
    let second = ring.select_with(key, MAX_PROBES, &backends(&rest), &nobody).unwrap();
    assert!(second != first);
    // And so it is when it is unhealthy.
    let sick = backends(&[(first.ip, first.port)]);
    let third = ring.select_with(key, MAX_PROBES, &set, &sick).unwrap();
    assert!(third == second);

    // Nothing may be taken, or nothing is probed: no backend.
    assert!(ring.select_with(key, MAX_PROBES, &nobody, &nobody).is_none());
    assert!(ring.select_with(key, MAX_PROBES, &set, &set).is_none());
    assert!(ring.select_with(key, 0, &set, &nobody).is_none());
    // One probe sees the first choice only.
    assert!(ring.select_with(key, 1, &set, &nobody).unwrap() == first);
    assert!(ring.select_with(key, 1, &backends(&rest), &nobody).is_none());
}

#[test]
fn ring_of_no_backends_selects_nothing() {
    let ring = HashRing::build(&BackendSet::new()).unwrap();
    assert!(ring.members().is_empty());
    let nobody = BackendSet::new();
    assert!(ring.select_with(b"key", MAX_PROBES, &nobody, &nobody).is_none());
}

#[test]
fn ring_is_not_built_from_bad_weights() {
    let mut set = BackendSet::new();
    set.insert(Backend { ip: 1, port: 1, weight: 0 });
    assert!(HashRing::build(&set).is_none());
    let mut set = BackendSet::new();
    set.insert(Backend { ip: 1, port: 1, weight: u32::MAX / 160 });
    set.insert(Backend { ip: 2, port: 1, weight: 1 });
    assert!(HashRing::build(&set).is_none());
}

#[test]
fn endpoints_are_read_from_their_text() {
    assert_eq!(parse_endpoint(b"1.2.3.4:80"), Some(0x0102_0304 * 65536 + 80));
    assert_eq!(parse_endpoint(b"255.255.255.255:65535"), Some(u64::MAX >> 16));
    assert_eq!(parse_endpoint(b"0.0.0.0:0"), Some(0));
    for text in [
        "", "1.2.3.4", "1.2.3.4:", ":80", "1.2.3:80", "1.2.3.4.5:80", "256.1.1.1:80",
        "1.2.3.4:65536", "[::1]:80", "1.2.3.4:80:90", "1..3.4:80", "a.b.c.d:80", "1.2.3.4: 80",
    ] {
        assert_eq!(parse_endpoint(text.as_bytes()), None, "{:?}", text);
    }
    assert_eq!(parse_address(b"x10.0.0.7y", 1, 9), Some(ip(10, 0, 0, 7)));
    // It reads what the standard library writes.
    for (a, port) in [(ip(10, 20, 30, 40), 6379u16), (ip(0, 0, 0, 1), 1), (ip(192, 168, 0, 255), 65535)]
    {
        let text = ketama_first(&[(a, port)], b"any key");
        assert_eq!(text, text_of(a, port));
        assert_eq!(parse_endpoint(text.as_bytes()), Some(a as u64 * 65536 + port as u64));
    }
}

#[test]
fn shard_is_selected_only_with_a_pool() {
    let addrs = [(ip(10, 0, 0, 1), 6379), (ip(10, 0, 0, 2), 6379)];
    let mut pools = RedisPools::new();
    assert!(pools.select_backend(b"key").is_none());
    let update = pools.backends_changed(&backends(&addrs));
    assert_eq!(update.create.len(), 2);
    assert_eq!(update.remove.len(), 0);
    // No pool yet: a lookup is a miss.
    assert!(pools.select_backend(b"key").is_none());
    assert!(pools.pool_for_hash(b"key").is_none());

    pools.pool_created(Backend::new(addrs[1].0, addrs[1].1));
    for i in 0..50u8 {
        let b = pools.pool_for_hash(&[i]).unwrap();
        assert_eq!((b.ip, b.port), addrs[1]);
    }
    pools.set_health(Backend::new(addrs[1].0, addrs[1].1), false);
    assert!(pools.select_backend(b"key").is_none());
    pools.set_health(Backend::new(addrs[1].0, addrs[1].1), true);
    assert!(pools.select_backend(b"key").is_some());
}

#[test]
fn pools_follow_the_set_of_servers() {
    let a = (ip(10, 0, 0, 1), 6379);
    let b = (ip(10, 0, 0, 2), 6379);
    let c = (ip(10, 0, 0, 3), 6379);
    let mut pools = RedisPools::new();
    let update = pools.backends_changed(&backends(&[a, b]));
    for i in 0..update.create.len() {
        pools.pool_created(update.create.get(i));
    }
    let update = pools.backends_changed(&backends(&[b, c]));
    assert_eq!(update.remove.len(), 1);
    assert_eq!((update.remove.get(0).ip, update.remove.get(0).port), a);
    assert_eq!(update.create.len(), 1);
    assert_eq!((update.create.get(0).ip, update.create.get(0).port), c);
    // Until the pool of `c` exists, every key goes to `b`.
    for i in 0..50u8 {
        let picked = pools.select_backend(&[i, 1]).unwrap();
        assert_eq!((picked.ip, picked.port), b);
    }
    let update = pools.backends_changed(&backends(&[b, c]));
    assert_eq!(update.remove.len(), 0);
    assert_eq!(update.create.len(), 1);
}

#[test]
fn lookup_is_a_hit_only_on_a_readable_entry() {
    let cache = RedisReplicasCacheBackend::new(RedisPools::new());
    let entry = CacheData { cache_meta: (vec![1], vec![2]), data: vec![3, 4] };
    let hit = cache.lookup(FetchResult::Found(encode_entry(&entry))).unwrap();
    assert_eq!(hit.data, vec![3, 4]);
    assert!(cache.lookup(FetchResult::Found(vec![7, 0, 0])).is_none());
    assert!(cache.lookup(FetchResult::Found(vec![])).is_none());
    assert!(cache.lookup(FetchResult::Missing).is_none());
    assert!(cache.lookup(FetchResult::PoolError).is_none());
    assert!(cache.lookup(FetchResult::GetError).is_none());
    assert!(cache.lookup_shard(&[0u8; 16]).is_none());
    assert!(!cache.purge(&[0u8; 16]));
    assert!(!cache.update_meta(&[0u8; 16], &(vec![], vec![])));
}

#[test]
fn hit_is_read_once() {
    let mut hit = RedisCacheHit::new(vec![1, 2, 3]);
    assert!(!hit.can_seek());
    assert_eq!(hit.read_body(), Some(vec![1, 2, 3]));
    assert_eq!(hit.read_body(), None);
    assert_eq!(hit.read_body(), None);
}

#[test]
fn miss_gathers_the_body_and_frames_it() {
    let shard = Backend::new(ip(10, 0, 0, 9), 6379);
    let mut pools = RedisPools::new();
    pools.backends_changed(&backends(&[(shard.ip, shard.port)]));
    let cache = RedisReplicasCacheBackend::new(pools);

    // Without a pool nothing is stored.
    let mut miss = cache.get_miss_handler([7u8; 16], (vec![1], vec![2, 3]));
    miss.write_body(b"ab", false);
    assert!(miss.finish(cache.pools()).is_none());

    let mut cache = cache;
    cache.pools_mut().pool_created(shard);
    let mut miss = cache.get_miss_handler([7u8; 16], (vec![1], vec![2, 3]));
    miss.write_body(b"ab", false);
    miss.write_body(b"", false);
    miss.write_body(b"c", true);
    let request = miss.finish(cache.pools()).unwrap();
    assert!(request.backend == shard);
    assert_eq!(request.key, [7u8; 16]);
    let entry = decode_entry(&request.value).unwrap();
    assert_eq!(entry.cache_meta, (vec![1], vec![2, 3]));
    assert_eq!(entry.data, b"abc");
    assert_eq!(request.value.len(), 1 + 8 + 1 + 8 + 2 + 8 + 3);
}

#[test]
fn failed_store_is_no_error() {
    assert_eq!(stored_size(StoreResult::NoShard, 40), 0);
    assert_eq!(stored_size(StoreResult::PoolError, 40), 0);
    assert_eq!(stored_size(StoreResult::SetError, 40), 40);
    assert_eq!(stored_size(StoreResult::Stored, 40), 40);
}

#[test]
fn mock_storage_holds_nothing() {
    let storage = MockStorage {};
    assert!(storage.lookup(b"key").is_none());
    let mut miss: MockMissHandler = storage.get_miss_handler(b"key", &(vec![], vec![]));
    miss.write_body(b"body", true);
    assert_eq!(miss.finish(), 1000);
    assert!(storage.lookup(b"key").is_none());
}

#[test]
fn numbers_are_written_in_decimal() {
    for n in [0u32, 7, 9, 10, 99, 100, 255, 6379, 65535, 1_000_000, u32::MAX] {
        let mut text = String::from("n=");
        push_decimal(&mut text, n);
        assert_eq!(text, format!("n={}", n));
    }
}

#[test]
fn endpoint_is_written_as_it_is_read() {
    let mut text = String::new();
    push_endpoint(&mut text, Backend::new(ip(10, 0, 200, 7), 6379));
    assert_eq!(text, "10.0.200.7:6379");
    for (a, port) in [(0u32, 0u16), (u32::MAX, u16::MAX), (ip(1, 20, 3, 40), 80)] {
        let mut text = String::new();
        push_endpoint(&mut text, Backend::new(a, port));
        assert_eq!(text, text_of(a, port));
        assert_eq!(parse_endpoint(text.as_bytes()), Some(a as u64 * 65536 + port as u64));
    }
}

#[test]
fn cache_server_is_reached_by_a_redis_url() {
    let backend = Backend::new(ip(10, 1, 2, 3), 6380);
    assert_eq!(redis_url_text(backend), "redis://10.1.2.3:6380");
    let url = redis_url(backend).unwrap();
    assert_eq!(url.scheme(), "redis");
    assert_eq!(url.host_str(), Some("10.1.2.3"));
    assert_eq!(url.port(), Some(6380));
}
