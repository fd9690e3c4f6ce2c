//! The configuration file of the proxy.

use vstd::prelude::*;
use vstd::string::*;
use vstd::utf8::*;
use crate::headers::{normal_name, normalize_name, HeaderSet};

verus! {

/// The port of a cache server that names none.
pub fn default_redis_port() -> (port: u16)
    ensures
        port == 6379,
{
    6379
}

/// How traces leave the process.
#[derive(Debug, Clone, Copy, PartialEq, Eq, Structural)]
pub enum TracingExporterConfig {
    /// Over OTLP.
    Otlp {  },
}

/// Which trace contexts are read from and written to headers, and where
/// traces go.
#[derive(Debug, Clone, Copy, PartialEq, Eq, Structural)]
pub struct TracingConfig {
    pub datadog_propagator: bool,
    pub opentelemetry_propagator: bool,
    pub exporter: TracingExporterConfig,
}

/// What the proxy does with request headers.
#[derive(Debug)]
pub struct ProxyConfig {
    /// Headers that are passed to the upstream but are no part of the
    /// cache key. Every other header that is neither a core header nor
    /// named in `Vary` is taken off a cached request.
    pub propagation_headers: Vec<String>,
}

/// Which cache servers hold the cache.
#[derive(Debug)]
pub enum CacheBackend {
    /// Every address that `hostname` resolves to is one shard; keys are
    /// spread over the shards by consistent hashing.
    RedisReplicas { hostname: String, port: u16 },
}

/// The Kubernetes integration.
#[derive(Debug, Clone, Copy, PartialEq, Eq, Structural)]
pub struct KubernetesConfig {
    /// Whether service resources are read from the cluster.
    pub enable: bool,
}

/// Where the settings of a bucket are found.
#[derive(Debug)]
pub enum BucketConfig {
    /// In environment variables whose names start with `prefix`.
    Env { prefix: String },
}

/// A descriptor set that the configuration file itself declares.
#[derive(Debug)]
pub enum ProtobufDescriptorSetConfig {
    File { path: String },
    Bucket { name: String, hash: String },
}

/// The configuration file.
#[derive(Debug)]
pub struct ConfigFile {
    pub kubernetes: KubernetesConfig,
    pub cache_backend: CacheBackend,
    pub proxy: ProxyConfig,
    pub tracing: Option<TracingConfig>,
}

/// Why a configuration cannot be run.
#[derive(Debug, Clone, Copy, PartialEq, Eq, Structural)]
pub enum ConfigError {
    /// The Kubernetes integration is switched off, and nothing else can
    /// supply services.
    KubernetesDisabled,
}

impl ConfigFile {
    /// Whether the proxy can run on this configuration: it can unless the
    /// Kubernetes integration is switched off.
    pub fn validate(&self) -> (r: Result<(), ConfigError>)
        ensures
            r is Ok <==> self.kubernetes.enable,
            r matches Err(e) ==> e == ConfigError::KubernetesDisabled,
    {
        if self.kubernetes.enable {
            Ok(())
        } else {
            Err(ConfigError::KubernetesDisabled)
        }
    }
}

impl ProxyConfig {
    /// The propagation headers as a set of header names in their normal
    /// form.
    pub fn propagation_set(&self) -> (set: HeaderSet)
        ensures
            set.wf(),
            forall|n: Seq<u8>|
                set@.contains(n) <==> exists|i: int|
                    0 <= i < self.propagation_headers@.len() && normal_name(
                        encode_utf8((#[trigger] self.propagation_headers@[i])@),
                    ) == n,
    {
        let mut set = HeaderSet::new();
        let mut k: usize = 0;
        while k < self.propagation_headers.len()
            invariant
                k <= self.propagation_headers.len(),
                set.wf(),
                forall|n: Seq<u8>|
                    set@.contains(n) <==> exists|i: int|
                        0 <= i < k && normal_name(
                            encode_utf8((#[trigger] self.propagation_headers@[i])@),
                        ) == n,
            decreases self.propagation_headers.len() - k,
        {
            let bytes = self.propagation_headers[k].as_str().as_bytes();
            let name = normalize_name(bytes, 0, bytes.len());
            proof {
                assert(bytes@.subrange(0, bytes@.len() as int) =~= bytes@);
            }
            let ghost before = set@;
            let ghost added = name@;
            set.insert(name);
            proof {
                assert forall|n: Seq<u8>|
                    set@.contains(n) <==> exists|i: int|
                        0 <= i < k + 1 && normal_name(
                            encode_utf8((#[trigger] self.propagation_headers@[i])@),
                        ) == n by {
                    assert(set@.contains(n) <==> (before.contains(n) || n == added));
                    if n == added {
                        assert(normal_name(
                            encode_utf8(self.propagation_headers@[k as int]@),
                        ) == n);
                    }
                }
            }
            k += 1;
        }
        set
    }
}

/// A list of spec items, as an older form of the configuration held it.
#[derive(Debug)]
pub struct GrcacheSpecV1 {
    pub items: Vec<SpecItem>,
}

/// One item of a `GrcacheSpecV1`. It holds nothing.
#[derive(Debug, Clone, Copy, PartialEq, Eq, Structural)]
pub struct SpecItem {
}

} // verus!
