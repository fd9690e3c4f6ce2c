//! The service resource: the declaration from which the proxy learns of a
//! gRPC service and of its upstreams.

use vstd::prelude::*;
use vstd::string::*;

verus! {

/// The cluster of a resource that names none: `default`.
pub fn default_string() -> (s: String)
    ensures
        s@ == "default"@,
{
    "default".to_owned()
}

/// The port of an upstream that names none.
pub fn default_grpc_port() -> (port: u16)
    ensures
        port == 50051,
{
    50051
}

/// How the upstreams of a service are found.
#[derive(Debug)]
pub enum Upstream {
    /// The host name `url` is resolved, and every address it resolves to
    /// is an upstream on `port`. The set is refreshed as the records
    /// expire.
    Dns { url: String, port: u16 },
}

/// Where the descriptor set of a service is found.
#[derive(Debug)]
pub enum DescriptorSetSource {
    /// A file on the local file system.
    File { path: String },
    /// An object of a configured bucket. The object bears its own SHA-256
    /// digest, in hexadecimal, as its name.
    Bucket { name: String, hash: String },
    /// The descriptor set itself, in base64.
    Inline { data: String },
}

impl DescriptorSetSource {
    /// A copy of the source.
    pub fn duplicate(&self) -> (r: DescriptorSetSource)
        ensures
            r == *self,
    {
        match self {
            DescriptorSetSource::File { path } => DescriptorSetSource::File { path: path.clone() },
            DescriptorSetSource::Bucket { name, hash } => DescriptorSetSource::Bucket {
                name: name.clone(),
                hash: hash.clone(),
            },
            DescriptorSetSource::Inline { data } => DescriptorSetSource::Inline {
                data: data.clone(),
            },
        }
    }
}

/// What a service resource declares.
#[derive(Debug)]
pub struct GrcacheServiceSpec {
    /// A deployment takes up only the resources of its own cluster.
    pub cluster: String,
    /// Tells apart several upstreams that implement one service. Most
    /// resources name none.
    pub upstream_name: Option<String>,
    /// How the upstreams are found.
    pub upstream: Upstream,
    /// The full name of the gRPC service, package included.
    pub service_name: String,
    /// Where the descriptors of the service are found. Without them the
    /// service is passed through and nothing is cached.
    pub descriptor_set_source: Option<DescriptorSetSource>,
}

/// The name under which the cluster knows a resource.
#[derive(Debug)]
pub struct ObjectRef {
    pub namespace: Option<String>,
    pub name: String,
}

/// A service resource as the cluster holds it.
#[derive(Debug)]
pub struct GrcacheService {
    pub namespace: Option<String>,
    pub name: String,
    /// Changes whenever the resource changes.
    pub resource_version: String,
    pub spec: GrcacheServiceSpec,
}

impl GrcacheService {
    /// Whether the resource goes by the name `r`.
    pub open spec fn is_named(self, r: ObjectRef) -> bool {
        self.name@ == r.name@ && match (self.namespace, r.namespace) {
            (Some(a), Some(b)) => a@ == b@,
            (None, None) => true,
            _ => false,
        }
    }

    /// The name under which the cluster knows the resource.
    pub fn object_ref(&self) -> (r: ObjectRef)
        ensures
            self.is_named(r),
    {
        ObjectRef {
            namespace: match &self.namespace {
                Some(n) => Some(n.clone()),
                None => None,
            },
            name: self.name.clone(),
        }
    }
}

} // verus!
