use std::collections::HashMap;
use std::sync::Arc;

use blake2::Digest;
use grcache::cache::{
    decode_entry, FetchResult, RedisPools, RedisReplicasCacheBackend, StoreRequest,
};
use grcache::discovery::{Backend, BackendSet, ServiceBackendsHandle};
use grcache::headers::HeaderSet;
use grcache::proxy::{
    parse_grpc_path, CacheState, FilterAction, GrpcProxy, NoCacheReason, PathError,
    ProxyLogicState, RequestError,
};
use grcache::qualified_service::QualifiedService;
use grcache::service::{
    DescriptorSet, FileDescriptor, GrcacheMethodOptions, MethodDescriptor, ServiceDescriptor,
    ServiceSpec,
};
use grcache::service_store::{ServiceConfigInner, ServiceData};
use http::{HeaderMap, HeaderValue};

fn handle(id: u64) -> Arc<ServiceBackendsHandle> {
    Arc::new(ServiceBackendsHandle { id, host: "upstream.local".to_string(), port: 50051 })
}

fn add_service_passthrough(config: &mut ServiceConfigInner, service_name: &str) {
    let service = QualifiedService::parse(service_name).unwrap();
    config.insert(
        service_name.to_string(),
        ServiceData {
            generation: 10,
            service_spec: Some(Arc::new(ServiceSpec::build_passthrough(&service))),
            load_balancer: Some(handle(1)),
        },
    );
}

fn test_descriptors(cache_ttl: i32) -> DescriptorSet {
    DescriptorSet {
        files: vec![FileDescriptor {
            package: "example".to_string(),
            services: vec![ServiceDescriptor {
                name: "TestService".to_string(),
                methods: vec![
                    MethodDescriptor {
                        name: "GetData".to_string(),
                        input_type: "example.GetDataRequest".to_string(),
                        output_type: "example.GetDataResponse".to_string(),
                        options: Some(GrcacheMethodOptions { cache_ttl, hash_on: vec![] }),
                    },
                    MethodDescriptor {
                        name: "PutData".to_string(),
                        input_type: "example.PutDataRequest".to_string(),
                        output_type: "example.PutDataResponse".to_string(),
                        options: None,
                    },
                ],
            }],
        }],
    }
}

fn add_service(config: &mut ServiceConfigInner, service_name: &str, cache_ttl: i32) {
    let service = QualifiedService::parse(service_name).unwrap();
    let (spec, errors) = ServiceSpec::build(&test_descriptors(cache_ttl), &service).unwrap();
    assert!(errors.is_empty());
    config.insert(
        service_name.to_string(),
        ServiceData {
            generation: 10,
            service_spec: Some(Arc::new(spec)),
            load_balancer: Some(handle(2)),
        },
    );
}

fn grpc_headers() -> HeaderMap {
    let mut headers = HeaderMap::new();
    headers.insert("content-type", HeaderValue::from_static("application/grpc"));
    headers.insert("host", HeaderValue::from_static("localhost"));
    headers
}

fn status_trailers(status: &'static str) -> HeaderMap {
    let mut trailers = HeaderMap::new();
    trailers.insert("grpc-status", HeaderValue::from_static(status));
    trailers
}

fn one_shard() -> (RedisPools, Backend) {
    let shard = Backend::new(0x0a00_0001, 6379);
    let mut set = BackendSet::new();
    set.insert(shard);
    let mut pools = RedisPools::new();
    let update = pools.backends_changed(&set);
    assert_eq!(update.create.len(), 1);
    assert_eq!(update.remove.len(), 0);
    pools.pool_created(shard);
    (pools, shard)
}

/// One request to a cached method, against a cache server that is played
/// by a map. Tells whether the upstream was called, and gives the
/// response body.
fn cached_request(
    config: &ServiceConfigInner,
    cache: &RedisReplicasCacheBackend,
    server: &mut HashMap<Vec<u8>, Vec<u8>>,
    path: &[u8],
    upstream_body: &[u8],
    upstream_trailers: &HeaderMap,
) -> (bool, Vec<u8>) {
    let headers = grpc_headers();
    let proxy = GrpcProxy::new(HeaderSet::new());
    let mut ctx = proxy.new_ctx();
    let action = proxy.request_filter(&mut ctx, config, path, &headers).unwrap();
    assert_eq!(action, FilterAction::BufferBody);
    let body: Vec<u8> = Vec::new();
    let strip = proxy.body_buffered(&ctx, false, &headers).unwrap();
    assert!(strip.is_empty());
    assert!(proxy.request_cache_filter(&mut ctx));
    let key = proxy.cache_key_callback(&ctx, &headers, path, &body);

    let fetched = match cache.lookup_shard(&key) {
        Some(_) => match server.get(&key.to_vec()) {
            Some(blob) => FetchResult::Found(blob.clone()),
            None => FetchResult::Missing,
        },
        None => FetchResult::Missing,
    };
    if let Some(entry) = cache.lookup(fetched) {
        if proxy.cache_hit_filter(&ctx, 0) {
            return (false, entry.data);
        }
    }

    let peer = proxy.upstream_peer(&ctx, Some(Backend::new(0x7f00_0001, 50051))).unwrap();
    assert!(!peer.tls);
    assert!(peer.alpn_h2);
    let mut miss = cache.get_miss_handler(key, (b"meta".to_vec(), b"extended".to_vec()));
    proxy.upstream_response_body_filter(&mut ctx, false);
    miss.write_body(upstream_body, false);
    proxy.upstream_response_trailer_filter(&mut ctx, upstream_trailers);
    if let Some(StoreRequest { key, value, .. }) = proxy.finish_miss(&ctx, miss, cache.pools()) {
        server.insert(key.to_vec(), value);
    }
    (true, upstream_body.to_vec())
}

#[test]
fn request_without_service_match() {
    let config = ServiceConfigInner::new();
    let proxy = GrpcProxy::new(HeaderSet::new());
    let mut ctx = proxy.new_ctx();
    let r = proxy.request_filter(&mut ctx, &config, b"/package.Service/Method", &grpc_headers());
    assert_eq!(r, Err(RequestError::UnknownService));
    assert_eq!(r.unwrap_err().status(), 404);
    assert!(!ctx.do_cache());
    assert!(!ctx.cache_enabled());
}

#[test]
fn request_with_no_backends() {
    let mut config = ServiceConfigInner::new();
    add_service_passthrough(&mut config, "package.Service");
    let proxy = GrpcProxy::new(HeaderSet::new());
    let mut ctx = proxy.new_ctx();
    let r = proxy.request_filter(&mut ctx, &config, b"/package.Service/Method", &grpc_headers());
    assert_eq!(r, Ok(FilterAction::Forward { unknown_method: false }));
    let peer = proxy.upstream_peer(&ctx, None);
    assert_eq!(peer.unwrap_err(), RequestError::NoUpstream);
    assert_eq!(RequestError::NoUpstream.status(), 502);
}

#[test]
fn request_with_passthrough_backend() {
    let mut config = ServiceConfigInner::new();
    add_service_passthrough(&mut config, "package.Service");
    let proxy = GrpcProxy::new(HeaderSet::new());
    let mut ctx = proxy.new_ctx();
    let r = proxy.request_filter(&mut ctx, &config, b"/package.Service/Method", &grpc_headers());
    assert_eq!(r, Ok(FilterAction::Forward { unknown_method: false }));
    assert!(!proxy.request_cache_filter(&mut ctx));

    let backend = Backend::new(0x7f00_0001, 4000);
    let peer = proxy.upstream_peer(&ctx, Some(backend)).unwrap();
    assert!(peer.backend == backend);
    assert_eq!(peer.sni, "");

    // The upstream answers with five zero bytes and no `grpc-status`.
    let (pools, _) = one_shard();
    let cache = RedisReplicasCacheBackend::new(pools);
    let mut miss = cache.get_miss_handler([0u8; 16], (vec![], vec![]));
    proxy.upstream_response_body_filter(&mut ctx, false);
    miss.write_body(b"\0\0\0\0\0", false);
    proxy.upstream_response_trailer_filter(&mut ctx, &HeaderMap::new());
    assert!(!ctx.cache_enabled());
    assert_eq!(ctx.no_cache_reason(), Some(NoCacheReason::InvalidTrailers));
    assert!(proxy.finish_miss(&ctx, miss, cache.pools()).is_none());
}

#[test]
fn request_with_service_full_backend() {
    let mut config = ServiceConfigInner::new();
    add_service(&mut config, "example.TestService", 60);
    let (pools, _) = one_shard();
    let cache = RedisReplicasCacheBackend::new(pools);
    let mut server: HashMap<Vec<u8>, Vec<u8>> = HashMap::new();
    let path = b"/example.TestService/GetData";

    let (called, first) =
        cached_request(&config, &cache, &mut server, path, b"\0\0\0\0\0", &status_trailers("0"));
    assert!(called);
    assert_eq!(first, b"\0\0\0\0\0");
    assert_eq!(server.len(), 1);

    // The second, identical request is served from the cache.
    let (called, second) =
        cached_request(&config, &cache, &mut server, path, b"other", &status_trailers("0"));
    assert!(!called);
    assert_eq!(second, first);

    // What was stored is the framed entry.
    let stored = server.values().next().unwrap();
    let entry = decode_entry(stored).unwrap();
    assert_eq!(entry.cache_meta.0, b"meta");
    assert_eq!(entry.cache_meta.1, b"extended");
    assert_eq!(entry.data, b"\0\0\0\0\0");
}

#[test]
fn request_with_error_status_is_not_cached() {
    let mut config = ServiceConfigInner::new();
    add_service(&mut config, "example.TestService", 60);
    let (pools, _) = one_shard();
    let cache = RedisReplicasCacheBackend::new(pools);
    let mut server: HashMap<Vec<u8>, Vec<u8>> = HashMap::new();
    let path = b"/example.TestService/GetData";

    let (called, _) =
        cached_request(&config, &cache, &mut server, path, b"\0\0\0\0\0", &status_trailers("13"));
    assert!(called);
    assert!(server.is_empty());

    let (called, _) =
        cached_request(&config, &cache, &mut server, path, b"\0\0\0\0\0", &status_trailers("13"));
    assert!(called);
    assert!(server.is_empty());
}

#[test]
fn cache_key_is_the_digest_of_path_and_body() {
    let mut config = ServiceConfigInner::new();
    add_service(&mut config, "example.TestService", 60);
    let path = b"/example.TestService/GetData";
    let headers = grpc_headers();
    let proxy = GrpcProxy::new(HeaderSet::new());
    let mut ctx = proxy.new_ctx();
    proxy.request_filter(&mut ctx, &config, path, &headers).unwrap();
    let key = proxy.cache_key_callback(&ctx, &headers, path, b"");

    let mut preimage: Vec<u8> = Vec::new();
    preimage.extend_from_slice(&(path.len() as u64).to_le_bytes());
    preimage.extend_from_slice(path);
    preimage.extend_from_slice(&0u64.to_le_bytes());
    let mut hasher = blake2::Blake2b::<blake2::digest::consts::U16>::new();
    hasher.update(&preimage);
    let expected: [u8; 16] = hasher.finalize().into();
    assert_eq!(key, expected);
    assert_ne!(key.to_vec(), preimage);
}

#[test]
fn classification_of_methods() {
    let mut config = ServiceConfigInner::new();
    add_service(&mut config, "example.TestService", 60);
    let headers = grpc_headers();

    let proxy = GrpcProxy::new(HeaderSet::new());
    let mut ctx = proxy.new_ctx();
    assert_eq!(
        proxy.request_filter(&mut ctx, &config, b"/example.TestService/GetData", &headers),
        Ok(FilterAction::BufferBody)
    );
    assert!(ctx.do_cache());
    assert_eq!(ctx.grpc_meta().as_ref().unwrap().cache_ttl(), Some(60));

    // A method without caching options is passed on.
    let proxy = GrpcProxy::new(HeaderSet::new());
    let mut ctx = proxy.new_ctx();
    assert_eq!(
        proxy.request_filter(&mut ctx, &config, b"/example.TestService/PutData", &headers),
        Ok(FilterAction::Forward { unknown_method: false })
    );
    assert!(!ctx.do_cache());

    // A method that the spec does not know is passed on, with a warning.
    let proxy = GrpcProxy::new(HeaderSet::new());
    let mut ctx = proxy.new_ctx();
    assert_eq!(
        proxy.request_filter(&mut ctx, &config, b"/example.TestService/Nope", &headers),
        Ok(FilterAction::Forward { unknown_method: true })
    );
}

#[test]
fn zero_ttl_disables_caching() {
    let mut config = ServiceConfigInner::new();
    add_service(&mut config, "example.TestService", 0);
    let proxy = GrpcProxy::new(HeaderSet::new());
    let mut ctx = proxy.new_ctx();
    assert_eq!(
        proxy.request_filter(&mut ctx, &config, b"/example.TestService/GetData", &grpc_headers()),
        Ok(FilterAction::Forward { unknown_method: false })
    );
    assert!(!proxy.request_cache_filter(&mut ctx));
    assert!(!ctx.cache_enabled());
}

#[test]
fn service_without_upstreams_is_unknown() {
    let mut config = ServiceConfigInner::new();
    config.insert(
        "pkg.S".to_string(),
        ServiceData { generation: 3, service_spec: None, load_balancer: None },
    );
    let proxy = GrpcProxy::new(HeaderSet::new());
    let mut ctx = proxy.new_ctx();
    assert_eq!(
        proxy.request_filter(&mut ctx, &config, b"/pkg.S/M", &grpc_headers()),
        Err(RequestError::UnknownService)
    );
}

#[test]
fn malformed_paths_are_refused() {
    assert_eq!(parse_grpc_path(b"/pkg.S/M"), Ok(("pkg.S", "M")));
    assert_eq!(parse_grpc_path(b"//"), Ok(("", "")));
    assert_eq!(parse_grpc_path(b""), Err(PathError::WrongElementCount));
    assert_eq!(parse_grpc_path(b"/pkg.S"), Err(PathError::WrongElementCount));
    assert_eq!(parse_grpc_path(b"/pkg.S/M/x"), Err(PathError::WrongElementCount));
    assert_eq!(parse_grpc_path(b"pkg.S/M"), Err(PathError::NoLeadingSlash));
    assert_eq!(parse_grpc_path(b"pkg"), Err(PathError::NoLeadingSlash));
    assert_eq!(parse_grpc_path(b"/pkg.S/\xff"), Err(PathError::InvalidUtf8));
    assert_eq!(parse_grpc_path("/p\u{e9}.S/M\u{4e2d}".as_bytes()), Ok(("p\u{e9}.S", "M\u{4e2d}")));

    let config = ServiceConfigInner::new();
    let proxy = GrpcProxy::new(HeaderSet::new());
    let mut ctx = proxy.new_ctx();
    let r = proxy.request_filter(&mut ctx, &config, b"no-slash", &grpc_headers());
    assert_eq!(r, Err(RequestError::InvalidPath(PathError::NoLeadingSlash)));
    assert_eq!(r.unwrap_err().status(), 400);
}

#[test]
fn invalid_vary_header_is_refused() {
    let mut config = ServiceConfigInner::new();
    add_service(&mut config, "example.TestService", 60);
    let mut headers = grpc_headers();
    headers.insert("vary", HeaderValue::from_bytes(b"x-\xe9").unwrap());
    let proxy = GrpcProxy::new(HeaderSet::new());
    let mut ctx = proxy.new_ctx();
    let r = proxy.request_filter(&mut ctx, &config, b"/example.TestService/GetData", &headers);
    assert_eq!(r, Err(RequestError::InvalidVaryHeader));
    assert_eq!(RequestError::InvalidVaryHeader.status(), 500);
    assert!(!ctx.do_cache());
}

#[test]
fn oversized_body_is_refused() {
    let mut config = ServiceConfigInner::new();
    add_service(&mut config, "example.TestService", 60);
    let headers = grpc_headers();
    let proxy = GrpcProxy::new(HeaderSet::new());
    let mut ctx = proxy.new_ctx();
    proxy.request_filter(&mut ctx, &config, b"/example.TestService/GetData", &headers).unwrap();
    let r = proxy.body_buffered(&ctx, true, &headers);
    assert_eq!(r, Err(RequestError::BodyTooLarge));
    assert_eq!(RequestError::BodyTooLarge.status(), 413);
}

#[test]
fn headers_outside_the_allowed_sets_are_stripped() {
    let mut config = ServiceConfigInner::new();
    add_service(&mut config, "example.TestService", 60);
    let mut headers = grpc_headers();
    headers.insert("vary", HeaderValue::from_static("X-Tenant"));
    headers.insert("x-tenant", HeaderValue::from_static("a"));
    headers.insert("x-trace", HeaderValue::from_static("t"));
    headers.insert("cookie", HeaderValue::from_static("c"));
    let mut propagation = HeaderSet::new();
    propagation.insert(b"x-trace".to_vec());

    let proxy = GrpcProxy::new(propagation);
    let mut ctx = proxy.new_ctx();
    proxy.request_filter(&mut ctx, &config, b"/example.TestService/GetData", &headers).unwrap();
    let strip = proxy.body_buffered(&ctx, false, &headers).unwrap();
    assert_eq!(strip, vec!["cookie".to_string()]);
}

#[test]
fn hit_is_served_only_within_ttl() {
    let mut config = ServiceConfigInner::new();
    add_service(&mut config, "example.TestService", 60);
    let proxy = GrpcProxy::new(HeaderSet::new());
    let mut ctx = proxy.new_ctx();
    assert_eq!(ctx.logic_state(), ProxyLogicState::init());
    proxy.request_filter(&mut ctx, &config, b"/example.TestService/GetData", &grpc_headers()).unwrap();
    assert_eq!(ctx.logic_state(), ProxyLogicState::DoCache(CacheState { ttl: 60 }));
    assert!(proxy.cache_hit_filter(&ctx, 0));
    assert!(proxy.cache_hit_filter(&ctx, 59));
    assert!(!proxy.cache_hit_filter(&ctx, 60));
    assert!(!proxy.cache_hit_filter(&ctx, u64::MAX));
}

#[test]
fn trailers_decide_whether_the_response_is_stored() {
    let mut config = ServiceConfigInner::new();
    add_service(&mut config, "example.TestService", 60);
    let cases: Vec<(HeaderMap, bool, Option<NoCacheReason>)> = vec![
        (status_trailers("0"), true, None),
        (status_trailers("+0"), true, None),
        (status_trailers("000"), true, None),
        (status_trailers("13"), false, Some(NoCacheReason::NonCachableTrailers)),
        (status_trailers("255"), false, Some(NoCacheReason::NonCachableTrailers)),
        (status_trailers("256"), false, Some(NoCacheReason::NonCachableTrailers)),
        (status_trailers("-1"), false, Some(NoCacheReason::NonCachableTrailers)),
        (
            status_trailers("99999999999999999999999999"),
            false,
            Some(NoCacheReason::NonCachableTrailers),
        ),
        (status_trailers("-0"), true, None),
        (status_trailers("1e3"), false, Some(NoCacheReason::InvalidTrailers)),
        (status_trailers("ok"), false, Some(NoCacheReason::InvalidTrailers)),
        (status_trailers(""), false, Some(NoCacheReason::InvalidTrailers)),
        (HeaderMap::new(), false, Some(NoCacheReason::InvalidTrailers)),
    ];
    for (trailers, stored, reason) in cases {
        let proxy = GrpcProxy::new(HeaderSet::new());
        let mut ctx = proxy.new_ctx();
        proxy.request_filter(&mut ctx, &config, b"/example.TestService/GetData", &grpc_headers()).unwrap();
        assert!(proxy.request_cache_filter(&mut ctx));
        assert!(ctx.cache_enabled());
        proxy.upstream_response_trailer_filter(&mut ctx, &trailers);
        assert_eq!(ctx.cache_enabled(), stored);
        assert_eq!(ctx.no_cache_reason(), reason);
    }
}

#[test]
fn body_without_trailers_is_not_stored() {
    let mut config = ServiceConfigInner::new();
    add_service(&mut config, "example.TestService", 60);
    let proxy = GrpcProxy::new(HeaderSet::new());
    let mut ctx = proxy.new_ctx();
    proxy.request_filter(&mut ctx, &config, b"/example.TestService/GetData", &grpc_headers()).unwrap();
    proxy.request_cache_filter(&mut ctx);
    proxy.upstream_response_body_filter(&mut ctx, false);
    assert!(ctx.cache_enabled());
    proxy.upstream_response_body_filter(&mut ctx, true);
    assert!(!ctx.cache_enabled());
    assert_eq!(ctx.no_cache_reason(), Some(NoCacheReason::NoTrailers));
    // The first reason stays, and storing stays off.
    proxy.upstream_response_trailer_filter(&mut ctx, &status_trailers("0"));
    assert!(!ctx.cache_enabled());
    proxy.upstream_response_trailer_filter(&mut ctx, &status_trailers("2"));
    assert_eq!(ctx.no_cache_reason(), Some(NoCacheReason::NoTrailers));
    assert!(!proxy.request_cache_filter(&mut ctx) || !ctx.cache_enabled());
}

#[test]
fn store_plan_is_fresh_for_a_minute() {
    let proxy = GrpcProxy::new(HeaderSet::new());
    let ctx = proxy.new_ctx();
    let plan = proxy.response_cache_filter(&ctx, 1_700_000_000);
    assert_eq!(plan.created, 1_700_000_000);
    assert_eq!(plan.fresh_until, 1_700_000_060);
    assert_eq!(plan.stale_while_revalidate_sec, 10);
    assert_eq!(plan.stale_if_error_sec, 10);
}
