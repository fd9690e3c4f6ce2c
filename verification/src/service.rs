//! What the proxy knows of a gRPC service: its methods and how each may be
//! cached.

use vstd::prelude::*;
use vstd::utf8::*;
use vstd::string::*;
use crate::field_ref::FieldRef;
use crate::qualified_service::QualifiedService;
use crate::text::str_eq;

verus! {

/// The caching options that a method declares in its protobuf options.
#[derive(Debug)]
pub struct GrcacheMethodOptions {
    /// For how many seconds a response may be served from the cache. Zero
    /// switches caching off; a negative number is an error.
    pub cache_ttl: i32,
    /// The request fields that a content-aware fingerprint would cover.
    pub hash_on: Vec<String>,
}

/// A method as a descriptor set declares it.
#[derive(Debug)]
pub struct MethodDescriptor {
    pub name: String,
    /// The full name of the request message.
    pub input_type: String,
    /// The full name of the response message.
    pub output_type: String,
    /// The caching options, where the method declares any.
    pub options: Option<GrcacheMethodOptions>,
}

/// A service as a descriptor set declares it.
#[derive(Debug)]
pub struct ServiceDescriptor {
    pub name: String,
    pub methods: Vec<MethodDescriptor>,
}

/// One file of a descriptor set.
#[derive(Debug)]
pub struct FileDescriptor {
    pub package: String,
    pub services: Vec<ServiceDescriptor>,
}

/// A descriptor set, as far as the proxy reads it.
#[derive(Debug)]
pub struct DescriptorSet {
    pub files: Vec<FileDescriptor>,
}

/// Why no service spec could be built.
#[derive(Debug)]
pub enum Error {
    /// The descriptor set could not be loaded.
    DescriptorError,
    /// The descriptor set declares no such service.
    ServiceNotFound { service: QualifiedService },
}

/// What is wrong with the caching options of a method. The method is still
/// served, without caching.
#[derive(Debug)]
pub enum ValidationError {
    /// `cache_ttl` is negative.
    InvalidCacheTTL { value: i32 },
    /// A `hash_on` entry is no field reference.
    HashOnInvalidFieldRef { field_ref: String, source: crate::field_ref::ParseError },
    /// A `hash_on` entry names a field that the request does not have.
    HashOnFieldNotFound { field: String },
}

/// How the responses of a method are cached.
#[derive(Debug)]
pub struct CacheSpec {
    pub hash_on: Vec<FieldRef>,
    pub descriptor: GrcacheMethodOptions,
}

/// A method of a service and, where it declares valid caching options, how
/// it is cached.
#[derive(Debug)]
pub struct MethodSpec {
    pub name: String,
    /// The full name of the request message.
    pub input_type: String,
    /// The full name of the response message.
    pub output_type: String,
    /// Only present if caching options are specified and valid.
    pub cache_spec: Option<CacheSpec>,
}

/// A service: its name, whether it is only passed through, and its methods.
/// Where two methods bear one name, the later one counts.
#[derive(Debug)]
pub struct ServiceSpec {
    pub name: QualifiedService,
    pub passthrough: bool,
    pub methods: Vec<MethodSpec>,
}

/// The position of the last method of `methods` that bears `name`, or `-1`.
pub open spec fn method_index(methods: Seq<MethodSpec>, name: Seq<char>) -> int
    decreases methods.len(),
{
    if methods.len() == 0 {
        -1
    } else if methods.last().name@ == name {
        methods.len() - 1
    } else {
        method_index(methods.drop_last(), name)
    }
}

/// Whether a method with these options is cached: it has a cache spec and
/// the spec's time to live is above zero.
pub open spec fn method_cache_ttl(method: MethodSpec) -> Option<i32> {
    match method.cache_spec {
        Some(spec) => if spec.descriptor.cache_ttl > 0 {
            Some(spec.descriptor.cache_ttl)
        } else {
            None
        },
        None => None,
    }
}

/// The cache spec that a method's options give: none without options, none
/// for a negative time to live, else a spec that holds the options.
pub open spec fn cache_spec_valid(options: Option<GrcacheMethodOptions>) -> bool {
    options matches Some(o) && o.cache_ttl >= 0
}

/// The first service of `files` that stands in `package` and bears `name`:
/// the positions of its file and of the service in it. `None` where no file
/// declares such a service.
pub open spec fn service_position(files: Seq<FileDescriptor>, package: Seq<char>, name: Seq<char>)
    -> Option<(int, int)>
    decreases files.len(),
{
    if files.len() == 0 {
        None
    } else {
        match service_position(files.drop_last(), package, name) {
            Some(p) => Some(p),
            None => {
                let last = files.last();
                let s = service_in_file(last.services@, name);
                if last.package@ == package && s >= 0 {
                    Some((files.len() - 1, s))
                } else {
                    None
                }
            },
        }
    }
}

/// The position of the first service of `services` that bears `name`, or
/// `-1`.
pub open spec fn service_in_file(services: Seq<ServiceDescriptor>, name: Seq<char>) -> int
    decreases services.len(),
{
    if services.len() == 0 {
        -1
    } else {
        let before = service_in_file(services.drop_last(), name);
        if before >= 0 {
            before
        } else if services.last().name@ == name {
            services.len() - 1
        } else {
            -1
        }
    }
}

/// Whether `spec` is what `method` declares: the same names, and a cache
/// spec exactly where the options are valid, holding those options and no
/// field references.
pub open spec fn method_spec_of(spec: MethodSpec, method: MethodDescriptor) -> bool {
    &&& spec.name@ == method.name@
    &&& spec.input_type@ == method.input_type@
    &&& spec.output_type@ == method.output_type@
    &&& spec.cache_spec is Some <==> cache_spec_valid(method.options)
    &&& spec.cache_spec matches Some(c) ==> {
        &&& c.hash_on@.len() == 0
        &&& c.descriptor.cache_ttl == method.options->0.cache_ttl
        &&& c.descriptor.hash_on@.len() == method.options->0.hash_on@.len()
        &&& forall|i: int|
            0 <= i < c.descriptor.hash_on@.len() ==> (#[trigger] c.descriptor.hash_on@[i])@
                == method.options->0.hash_on@[i]@
    }
}

/// The negative times to live among the options of `methods`, in order: one
/// validation error is owed for each.
pub open spec fn invalid_ttls(methods: Seq<MethodDescriptor>) -> Seq<i32>
    decreases methods.len(),
{
    if methods.len() == 0 {
        seq![]
    } else {
        let rest = invalid_ttls(methods.drop_last());
        match methods.last().options {
            Some(o) => if o.cache_ttl < 0 {
                rest.push(o.cache_ttl)
            } else {
                rest
            },
            None => rest,
        }
    }
}

/// Whether `errors` reports exactly the negative times to live `ttls`.
pub open spec fn reports_ttls(errors: Seq<ValidationError>, ttls: Seq<i32>) -> bool {
    &&& errors.len() == ttls.len()
    &&& forall|i: int|
        0 <= i < errors.len() ==> (#[trigger] errors[i] matches ValidationError::InvalidCacheTTL {
            value,
        } && value == ttls[i])
}

/// Copies a list of texts.
pub fn copy_strings(v: &Vec<String>) -> (r: Vec<String>)
    ensures
        r@.len() == v@.len(),
        forall|i: int| 0 <= i < r@.len() ==> (#[trigger] r@[i])@ == v@[i]@,
{
    let mut out: Vec<String> = Vec::new();
    let mut i: usize = 0;
    while i < v.len()
        invariant
            i <= v.len(),
            out@.len() == i,
            forall|j: int| 0 <= j < i ==> (#[trigger] out@[j])@ == v@[j]@,
        decreases v.len() - i,
    {
        out.push(v[i].clone());
        i += 1;
    }
    out
}

impl MethodSpec {
    /// Builds the spec of one method. Options with a negative time to live
    /// are reported and give no cache spec.
    pub fn build(method: &MethodDescriptor, validation_errors: &mut Vec<ValidationError>) -> (r:
        MethodSpec)
        ensures
            method_spec_of(r, *method),
            match method.options {
                Some(o) => if o.cache_ttl < 0 {
                    final(validation_errors)@ == old(validation_errors)@.push(
                        ValidationError::InvalidCacheTTL { value: o.cache_ttl },
                    )
                } else {
                    final(validation_errors)@ == old(validation_errors)@
                },
                None => final(validation_errors)@ == old(validation_errors)@,
            },
    {
        let cache_spec = match &method.options {
            Some(opt) => {
                if opt.cache_ttl < 0 {
                    validation_errors.push(ValidationError::InvalidCacheTTL { value: opt.cache_ttl });
                    None
                } else {
                    Some(
                        CacheSpec {
                            hash_on: Vec::new(),
                            descriptor: GrcacheMethodOptions {
                                cache_ttl: opt.cache_ttl,
                                hash_on: copy_strings(&opt.hash_on),
                            },
                        },
                    )
                }
            },
            None => None,
        };
        MethodSpec {
            name: method.name.clone(),
            input_type: method.input_type.clone(),
            output_type: method.output_type.clone(),
            cache_spec,
        }
    }

    /// The time to live of the method's responses, where the method is
    /// cached: it has a cache spec with a time to live above zero.
    pub fn cache_ttl(&self) -> (r: Option<i32>)
        ensures
            r == method_cache_ttl(*self),
    {
        match &self.cache_spec {
            Some(spec) => if spec.descriptor.cache_ttl > 0 {
                Some(spec.descriptor.cache_ttl)
            } else {
                None
            },
            None => None,
        }
    }
}

/// Finds the first service of one file that bears `name`.
pub fn find_in_file(services: &Vec<ServiceDescriptor>, name: &str) -> (r: Option<usize>)
    ensures
        match r {
            Some(k) => k < services.len() && service_in_file(services@, name@) == k,
            None => service_in_file(services@, name@) == -1,
        },
{
    let mut s: usize = 0;
    proof {
        assert(services@.subrange(0, 0) =~= Seq::<ServiceDescriptor>::empty());
    }
    while s < services.len()
        invariant
            s <= services.len(),
            service_in_file(services@.subrange(0, s as int), name@) == -1,
        decreases services.len() - s,
    {
        proof {
            assert(services@.subrange(0, s + 1).drop_last() =~= services@.subrange(0, s as int));
        }
        if str_eq(services[s].name.as_str(), name) {
            proof {
                lemma_service_in_file_prefix(services@, name@, s + 1);
            }
            return Some(s);
        }
        s += 1;
    }
    proof {
        assert(services@.subrange(0, s as int) =~= services@);
    }
    None
}

/// Finds the service `service` in the files of a descriptor set: the first
/// one, in the set's order, whose file has the package and which bears the
/// name.
pub fn find_service<'a>(files: &'a Vec<FileDescriptor>, service: &QualifiedService) -> (r: Option<
    &'a ServiceDescriptor,
>)
    ensures
        match service_position(files@, service.package@, service.name@) {
            Some((f, s)) => r == Some(&files@[f].services@[s]),
            None => r is None,
        },
{
    let mut f: usize = 0;
    proof {
        assert(files@.subrange(0, 0) =~= Seq::<FileDescriptor>::empty());
    }
    while f < files.len()
        invariant
            f <= files.len(),
            service_position(files@.subrange(0, f as int), service.package@, service.name@) is None,
        decreases files.len() - f,
    {
        let file = &files[f];
        let ghost head = files@.subrange(0, f + 1);
        proof {
            assert(head.drop_last() =~= files@.subrange(0, f as int));
            assert(head.last() == files@[f as int]);
        }
        let found: Option<usize> = if str_eq(file.package.as_str(), service.package.as_str()) {
            find_in_file(&file.services, service.name.as_str())
        } else {
            None
        };
        match found {
            Some(s) => {
                proof {
                    lemma_service_position_prefix(
                        files@,
                        service.package@,
                        service.name@,
                        f + 1,
                    );
                }
                return Some(&file.services[s]);
            },
            None => {},
        }
        f += 1;
    }
    proof {
        assert(files@.subrange(0, f as int) =~= files@);
    }
    None
}

/// A service found among the first `n` services is the one found among all.
pub proof fn lemma_service_in_file_prefix(services: Seq<ServiceDescriptor>, name: Seq<char>, n: int)
    requires
        0 <= n <= services.len(),
        service_in_file(services.subrange(0, n), name) >= 0,
    ensures
        service_in_file(services, name) == service_in_file(services.subrange(0, n), name),
    decreases services.len() - n,
{
    if n < services.len() {
        assert(services.subrange(0, n + 1).drop_last() =~= services.subrange(0, n));
        lemma_service_in_file_prefix(services, name, n + 1);
    } else {
        assert(services.subrange(0, n) =~= services);
    }
}

/// A service found among the first `n` files is the one found among all.
pub proof fn lemma_service_position_prefix(
    files: Seq<FileDescriptor>,
    package: Seq<char>,
    name: Seq<char>,
    n: int,
)
    requires
        0 <= n <= files.len(),
        service_position(files.subrange(0, n), package, name) is Some,
    ensures
        service_position(files, package, name) == service_position(
            files.subrange(0, n),
            package,
            name,
        ),
    decreases files.len() - n,
{
    if n < files.len() {
        assert(files.subrange(0, n + 1).drop_last() =~= files.subrange(0, n));
        lemma_service_position_prefix(files, package, name, n + 1);
    } else {
        assert(files.subrange(0, n) =~= files);
    }
}

/// Whether `spec` is what the methods `declared` give for `service`: it
/// bears the service's name, is not passed through, and holds the spec of
/// each declared method, in order.
pub open spec fn built_from(
    spec: ServiceSpec,
    declared: Seq<MethodDescriptor>,
    service: QualifiedService,
) -> bool {
    &&& spec.name.package@ == service.package@
    &&& spec.name.name@ == service.name@
    &&& !spec.passthrough
    &&& spec.methods@.len() == declared.len()
    &&& forall|i: int|
        0 <= i < declared.len() ==> method_spec_of(#[trigger] spec.methods@[i], declared[i])
}

impl ServiceSpec {
    /// The spec of a service of which nothing is known but its name: it is
    /// passed through and has no methods.
    pub fn build_passthrough(service: &QualifiedService) -> (r: ServiceSpec)
        ensures
            r.name.package@ == service.package@,
            r.name.name@ == service.name@,
            r.passthrough,
            r.methods@.len() == 0,
    {
        ServiceSpec {
            name: QualifiedService { package: service.package.clone(), name: service.name.clone() },
            passthrough: true,
            methods: Vec::new(),
        }
    }

    /// Builds the spec of `service` from a descriptor set: one method spec
    /// for each method that the set declares for the service, in the set's
    /// order, and one validation error for each negative time to live.
    pub fn build(descriptor_set: &DescriptorSet, service: &QualifiedService) -> (r: Result<
        (ServiceSpec, Vec<ValidationError>),
        Error,
    >)
        ensures
            match service_position(descriptor_set.files@, service.package@, service.name@) {
                Some((f, s)) => {
                    let declared = descriptor_set.files@[f].services@[s].methods@;
                    &&& r matches Ok((spec, errors))
                    &&& built_from(spec, declared, *service)
                    &&& reports_ttls(errors@, invalid_ttls(declared))
                },
                None => r matches Err(Error::ServiceNotFound { service: named })
                    && named.package@ == service.package@ && named.name@ == service.name@,
            },
    {
        let found = find_service(&descriptor_set.files, service);
        let descriptor = match found {
            Some(d) => d,
            None => {
                return Err(
                    Error::ServiceNotFound {
                        service: QualifiedService {
                            package: service.package.clone(),
                            name: service.name.clone(),
                        },
                    },
                );
            },
        };
        let mut errors: Vec<ValidationError> = Vec::new();
        let mut methods: Vec<MethodSpec> = Vec::new();
        let mut i: usize = 0;
        let ghost declared = descriptor.methods@;
        proof {
            assert(declared.subrange(0, 0) =~= Seq::<MethodDescriptor>::empty());
        }
        while i < descriptor.methods.len()
            invariant
                i <= descriptor.methods.len(),
                declared == descriptor.methods@,
                methods@.len() == i,
                forall|j: int| 0 <= j < i ==> method_spec_of(#[trigger] methods@[j], declared[j]),
                reports_ttls(errors@, invalid_ttls(declared.subrange(0, i as int))),
            decreases descriptor.methods.len() - i,
        {
            let ghost before = errors@;
            let spec = MethodSpec::build(&descriptor.methods[i], &mut errors);
            methods.push(spec);
            proof {
                assert(declared.subrange(0, i + 1).drop_last() =~= declared.subrange(0, i as int));
                assert(declared.subrange(0, i + 1).last() == declared[i as int]);
            }
            i += 1;
        }
        proof {
            assert(declared.subrange(0, i as int) =~= declared);
        }
        Ok(
            (
                ServiceSpec {
                    name: QualifiedService {
                        package: service.package.clone(),
                        name: service.name.clone(),
                    },
                    passthrough: false,
                    methods,
                },
                errors,
            ),
        )
    }

    /// The method that bears `name`: the last one, where several do.
    pub fn method(&self, name: &str) -> (r: Option<&MethodSpec>)
        ensures
            match r {
                Some(m) => method_index(self.methods@, name@) >= 0 && *m == self.methods@[method_index(
                    self.methods@,
                    name@,
                )],
                None => method_index(self.methods@, name@) == -1,
            },
    {
        let mut i: usize = self.methods.len();
        proof {
            assert(self.methods@.subrange(0, i as int) =~= self.methods@);
        }
        while i > 0
            invariant
                i <= self.methods.len(),
                method_index(self.methods@, name@) == method_index(
                    self.methods@.subrange(0, i as int),
                    name@,
                ),
            decreases i,
        {
            proof {
                assert(self.methods@.subrange(0, i as int).drop_last() =~= self.methods@.subrange(
                    0,
                    i - 1,
                ));
            }
            if str_eq(self.methods[i - 1].name.as_str(), name) {
                return Some(&self.methods[i - 1]);
            }
            i -= 1;
        }
        None
    }
}

} // verus!
