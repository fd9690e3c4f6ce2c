use grcache::config::{
    default_redis_port, BucketConfig, CacheBackend, ConfigError, ConfigFile, GrcacheSpecV1,
    KubernetesConfig, ProtobufDescriptorSetConfig, ProxyConfig, SpecItem, TracingConfig,
    TracingExporterConfig,
};
use grcache::crd::{default_grpc_port, default_string, DescriptorSetSource};
use grcache::field_ref::{FieldRef, PathComponent};
use grcache::qualified_service::{Error, QualifiedService};
use grcache::service::{
    find_service, DescriptorSet, FileDescriptor, GrcacheMethodOptions, MethodDescriptor,
    ServiceDescriptor, ServiceSpec, ValidationError,
};
use grcache::text::{bytes_eq, bytes_less, find_first_from, find_last, is_utf8, str_eq};

fn method(name: &str, ttl: Option<i32>) -> MethodDescriptor {
    MethodDescriptor {
        name: name.to_string(),
        input_type: "In".to_string(),
        output_type: "Out".to_string(),
        options: ttl.map(|cache_ttl| GrcacheMethodOptions {
            cache_ttl,
            hash_on: vec!["id".to_string()],
        }),
    }
}

fn file(package: &str, services: Vec<(&str, Vec<MethodDescriptor>)>) -> FileDescriptor {
    FileDescriptor {
        package: package.to_string(),
        services: services
            .into_iter()
            .map(|(name, methods)| ServiceDescriptor { name: name.to_string(), methods })
            .collect(),
    }
}

fn field_names(r: &FieldRef) -> Vec<String> {
    r.components.iter().map(|c| match c { PathComponent::Field(f) => f.clone() }).collect()
}

#[test]
fn qualified_service_is_parted_at_the_last_dot() {
    let q = QualifiedService::parse("a.b.C").unwrap();
    assert_eq!((q.package.as_str(), q.name.as_str()), ("a.b", "C"));
    assert_eq!(q.to_text(), "a.b.C");
    let q = QualifiedService::parse(".C").unwrap();
    assert_eq!((q.package.as_str(), q.name.as_str()), ("", "C"));
    let q = QualifiedService::parse("pkg.").unwrap();
    assert_eq!((q.package.as_str(), q.name.as_str()), ("pkg", ""));
    let q = QualifiedService::parse("p\u{e4}ck.S\u{fc}").unwrap();
    assert_eq!((q.package.as_str(), q.name.as_str()), ("p\u{e4}ck", "S\u{fc}"));
    match QualifiedService::parse("NoPackage") {
        Err(e) => {
            assert_eq!(e.message(), "failed to parse qualified service name: NoPackage");
            match e {
                Error::FailedParseQualifiedService { name } => assert_eq!(name, "NoPackage"),
            }
        }
        Ok(_) => panic!("a name without a dot is refused"),
    }
    assert!(QualifiedService::parse("").is_err());
}

#[test]
fn field_ref_is_cut_at_every_dot() {
    assert_eq!(field_names(&FieldRef::parse("a.b.c").ok().unwrap()), vec!["a", "b", "c"]);
    assert_eq!(field_names(&FieldRef::parse("single").ok().unwrap()), vec!["single"]);
    assert_eq!(field_names(&FieldRef::parse("").ok().unwrap()), vec![""]);
    assert_eq!(field_names(&FieldRef::parse("a..b.").ok().unwrap()), vec!["a", "", "b", ""]);
    assert_eq!(field_names(&FieldRef::parse("\u{e9}.x").ok().unwrap()), vec!["\u{e9}", "x"]);
}

#[test]
fn service_spec_holds_the_declared_methods() {
    let set = DescriptorSet {
        files: vec![
            file("other", vec![("S", vec![method("Wrong", Some(1))])]),
            file("pkg", vec![("T", vec![]), ("S", vec![
                method("Cached", Some(60)),
                method("Plain", None),
                method("Off", Some(0)),
                method("Bad", Some(-5)),
                method("Worse", Some(i32::MIN)),
            ])]),
            file("pkg", vec![("S", vec![method("Shadowed", Some(9))])]),
        ],
    };
    let service = QualifiedService::parse("pkg.S").unwrap();
    let (spec, errors) = ServiceSpec::build(&set, &service).ok().unwrap();
    assert!(!spec.passthrough);
    assert_eq!(spec.name.to_text(), "pkg.S");
    let names: Vec<&str> = spec.methods.iter().map(|m| m.name.as_str()).collect();
    assert_eq!(names, vec!["Cached", "Plain", "Off", "Bad", "Worse"]);

    assert_eq!(spec.method("Cached").unwrap().cache_ttl(), Some(60));
    let cached = spec.method("Cached").unwrap().cache_spec.as_ref().unwrap();
    assert_eq!(cached.descriptor.cache_ttl, 60);
    assert_eq!(cached.descriptor.hash_on, vec!["id".to_string()]);
    assert!(cached.hash_on.is_empty());
    assert!(spec.method("Plain").unwrap().cache_spec.is_none());
    assert_eq!(spec.method("Plain").unwrap().cache_ttl(), None);
    // A time to live of zero is valid and switches caching off.
    assert!(spec.method("Off").unwrap().cache_spec.is_some());
    assert_eq!(spec.method("Off").unwrap().cache_ttl(), None);
    // A negative one is an error and gives no cache spec.
    assert!(spec.method("Bad").unwrap().cache_spec.is_none());
    assert!(spec.method("Unknown").is_none());
    assert_eq!(spec.method("Cached").unwrap().input_type, "In");

    let values: Vec<i32> = errors
        .iter()
        .map(|e| match e {
            ValidationError::InvalidCacheTTL { value } => *value,
            _ => panic!("only times to live are checked"),
        })
        .collect();
    assert_eq!(values, vec![-5, i32::MIN]);
}

#[test]
fn service_is_found_by_package_and_name() {
    let files = vec![
        file("a", vec![("X", vec![]), ("S", vec![method("First", None)])]),
        file("b", vec![("S", vec![method("Second", None)])]),
    ];
    let find = |name: &str| {
        find_service(&files, &QualifiedService::parse(name).unwrap())
            .map(|s| s.methods[0].name.clone())
    };
    assert_eq!(find("a.S"), Some("First".to_string()));
    assert_eq!(find("b.S"), Some("Second".to_string()));
    assert_eq!(find("b.X"), None);
    assert_eq!(find("c.S"), None);

    let set = DescriptorSet { files };
    match ServiceSpec::build(&set, &QualifiedService::parse("c.S").unwrap()) {
        Err(grcache::service::Error::ServiceNotFound { service }) => {
            assert_eq!(service.to_text(), "c.S")
        }
        _ => panic!("the service is not declared"),
    }
}

#[test]
fn later_method_of_a_name_counts() {
    let set = DescriptorSet {
        files: vec![file("p", vec![("S", vec![method("M", Some(1)), method("M", Some(2))])])],
    };
    let (spec, _) =
        ServiceSpec::build(&set, &QualifiedService::parse("p.S").unwrap()).ok().unwrap();
    assert_eq!(spec.method("M").unwrap().cache_ttl(), Some(2));
}

#[test]
fn passthrough_spec_has_no_methods() {
    let spec = ServiceSpec::build_passthrough(&QualifiedService::parse("pkg.S").unwrap());
    assert!(spec.passthrough);
    assert!(spec.methods.is_empty());
    assert_eq!(spec.name.to_text(), "pkg.S");
    assert!(spec.method("M").is_none());
}

#[test]
fn defaults_are_as_documented() {
    assert_eq!(default_string(), "default");
    assert_eq!(default_grpc_port(), 50051);
    assert_eq!(default_redis_port(), 6379);
}

#[test]
fn configuration_needs_kubernetes() {
    let config = |enable| ConfigFile {
        kubernetes: KubernetesConfig { enable },
        cache_backend: CacheBackend::RedisReplicas { hostname: "redis".into(), port: 6379 },
        proxy: ProxyConfig { propagation_headers: vec![" X-Trace ".into(), "x-b3".into()] },
        tracing: Some(TracingConfig {
            datadog_propagator: false,
            opentelemetry_propagator: true,
            exporter: TracingExporterConfig::Otlp {},
        }),
    };
    assert_eq!(config(true).validate(), Ok(()));
    assert_eq!(config(false).validate(), Err(ConfigError::KubernetesDisabled));
    let set = config(true).proxy.propagation_set();
    assert_eq!(set.len(), 2);
    assert!(set.contains(b"x-trace"));
    assert!(set.contains(b"x-b3"));
    assert!(!set.contains(b" X-Trace "));
}

#[test]
fn plain_configuration_values() {
    let _ = BucketConfig::Env { prefix: "GRCACHE_".into() };
    let _ = ProtobufDescriptorSetConfig::File { path: "a.binpb".into() };
    let _ = ProtobufDescriptorSetConfig::Bucket { name: "b".into(), hash: "h".into() };
    let spec = GrcacheSpecV1 { items: vec![SpecItem {}] };
    assert_eq!(spec.items.len(), 1);
    let source = DescriptorSetSource::Bucket { name: "b".into(), hash: "h".into() };
    match source.duplicate() {
        DescriptorSetSource::Bucket { name, hash } => {
            assert_eq!((name.as_str(), hash.as_str()), ("b", "h"))
        }
        _ => panic!("a copy is the same source"),
    }
}

#[test]
fn byte_strings_are_compared_as_a_dictionary_orders_them() {
    let words: [&[u8]; 7] = [b"", b"a", b"a\0", b"ab", b"b", b"\x7f", b"\xff"];
    for (i, a) in words.iter().enumerate() {
        for (j, b) in words.iter().enumerate() {
            assert_eq!(bytes_less(a, b), i < j, "{:?} < {:?}", a, b);
            assert_eq!(bytes_less(a, b), a < b);
            assert_eq!(bytes_eq(a, b), i == j);
        }
    }
    assert!(str_eq("\u{e9}", "\u{e9}"));
    assert!(!str_eq("e", "\u{e9}"));
}

#[test]
fn bytes_are_searched() {
    assert_eq!(find_last(b"a.b.c", b'.'), Some(3));
    assert_eq!(find_last(b"abc", b'.'), None);
    assert_eq!(find_last(b"", b'.'), None);
    assert_eq!(find_first_from(b"a.b.c", b'.', 0), 1);
    assert_eq!(find_first_from(b"a.b.c", b'.', 2), 3);
    assert_eq!(find_first_from(b"a.b.c", b'.', 4), 5);
    assert!(is_utf8(b"plain"));
    assert!(is_utf8("\u{4e2d}".as_bytes()));
    assert!(!is_utf8(b"\xc3"));
    assert!(!is_utf8(b"\xed\xa0\x80"));
}
