//! The request pipeline: what the proxy decides for one request, from its
//! classification to the question whether its response is stored.
//!
//! The caller moves the bytes; every decision is taken here. A request is
//! classified by its path and the routing table. A request to a cached
//! method has its body buffered, its headers cut down to those that may
//! pass, and a fingerprint derived as its cache key. The response to a
//! miss is stored only if the upstream reports the gRPC status zero in
//! its trailers.

use vstd::prelude::*;
use vstd::string::*;
use vstd::utf8::*;
use crate::discovery::Backend;
use crate::field_ref::{lemma_split_nonempty, split_on};
use crate::hash::{
    blake2b_128, cache_key, key_preimage, lemma_key_preimage_injective,
    lemma_vary_pairs_are_valid, nul_free, valid_path, values_without_zero, vary_pairs,
};
use crate::headers::{
    find_strip_headers, header_entries, holds_both, is_text, make_vary_headers_set, names_of,
    names_without_zero, strip_names, text_bytes, values_of, vary_header, vary_names, HeaderSet,
};
use crate::service::{method_cache_ttl, method_index, MethodSpec};
use crate::service_store::{ServiceConfigInner, ServiceData};
use crate::status::{status_code_of, status_header, GrpcStatus, ParseError};
use crate::text::{
    find_first_from, first_index_from, lemma_after_ascii_is_boundary,
    lemma_ascii_byte_is_boundary, lemma_first_index_from, str_from_utf8,
};

verus! {

/// The byte `/` that parts service and method in a request path.
pub const SLASH: u8 = 0x2f;

/// Why a request path is no gRPC path.
#[derive(Debug, Clone, Copy, PartialEq, Eq, Structural)]
pub enum PathError {
    /// The path is not well-formed UTF-8.
    InvalidUtf8,
    /// The path does not begin with `/`.
    NoLeadingSlash,
    /// The path does not have exactly two elements.
    WrongElementCount,
}

/// What a request path names: the service and the method, as the bytes
/// between its slashes. A gRPC path is well-formed UTF-8, begins with `/`
/// and holds exactly one more `/`.
pub open spec fn grpc_path(path: Seq<u8>) -> Result<(Seq<u8>, Seq<u8>), PathError> {
    let parts = split_on(path, SLASH);
    if !valid_utf8(path) {
        Err(PathError::InvalidUtf8)
    } else if parts[0].len() != 0 {
        Err(PathError::NoLeadingSlash)
    } else if parts.len() != 3 {
        Err(PathError::WrongElementCount)
    } else {
        Ok((parts[1], parts[2]))
    }
}

/// Reads service and method from a request path.
pub fn parse_grpc_path(path: &[u8]) -> (r: Result<(&str, &str), PathError>)
    ensures
        match grpc_path(path@) {
            Ok((service, method)) => r matches Ok((s, m)) && s.spec_bytes() == service
                && m.spec_bytes() == method,
            Err(e) => r == Err::<(&str, &str), PathError>(e),
        },
{
    let text = match str_from_utf8(path) {
        Some(t) => t,
        None => {
            return Err(PathError::InvalidUtf8);
        },
    };
    let first = find_first_from(path, SLASH, 0);
    proof {
        lemma_first_index_from(path@, SLASH, 0);
    }
    if path.len() == 0 {
        proof {
            assert(split_on(path@, SLASH) =~= seq![path@]);
        }
        return Err(PathError::WrongElementCount);
    }
    if first != 0 {
        proof {
            if first >= path.len() {
                assert(split_on(path@, SLASH) =~= seq![path@]);
            } else {
                assert(split_on(path@, SLASH)[0] == path@.subrange(0, first as int));
            }
        }
        return Err(PathError::NoLeadingSlash);
    }
    let second = find_first_from(path, SLASH, 1);
    let ghost rest1 = path@.subrange(1, path@.len() as int);
    proof {
        lemma_first_index_from(path@, SLASH, 1);
        crate::headers::lemma_first_index_shift(path@, SLASH, 1);
        assert(path@.subrange(0, 0) =~= Seq::<u8>::empty());
    }
    if second >= path.len() {
        proof {
            assert(split_on(rest1, SLASH) =~= seq![rest1]);
            assert(split_on(path@, SLASH).len() == 2);
        }
        return Err(PathError::WrongElementCount);
    }
    let third = find_first_from(path, SLASH, second + 1);
    let ghost rest2 = path@.subrange(second + 1, path@.len() as int);
    proof {
        lemma_first_index_from(path@, SLASH, second + 1);
        crate::headers::lemma_first_index_shift(path@, SLASH, second + 1);
        assert(rest1.subrange(0, second - 1) =~= path@.subrange(1, second as int));
        assert(rest1.subrange(second - 1 + 1, rest1.len() as int) =~= rest2);
        assert(split_on(rest1, SLASH) =~= seq![path@.subrange(1, second as int)] + split_on(
            rest2,
            SLASH,
        ));
    }
    if third < path.len() {
        proof {
            lemma_split_nonempty(rest2.subrange(third - second, rest2.len() as int), SLASH);
            assert(split_on(rest2, SLASH).len() >= 2);
            assert(split_on(path@, SLASH).len() >= 4);
        }
        return Err(PathError::WrongElementCount);
    }
    proof {
        assert(split_on(rest2, SLASH) =~= seq![rest2]);
        assert(split_on(path@, SLASH) =~= seq![
            Seq::<u8>::empty(),
            path@.subrange(1, second as int),
            rest2,
        ]);
        lemma_after_ascii_is_boundary(text@);
    }
    let (_lead, after) = text.split_at(1);
    proof {
        assert(after.spec_bytes() =~= rest1);
        lemma_ascii_byte_is_boundary(after@, second - 1);
    }
    let (service, tail) = after.split_at(second - 1);
    proof {
        assert(tail.spec_bytes()[0] == SLASH);
        lemma_after_ascii_is_boundary(tail@);
    }
    let (_slash, method) = tail.split_at(1);
    proof {
        assert(service.spec_bytes() =~= path@.subrange(1, second as int));
        assert(method.spec_bytes() =~= rest2);
    }
    Ok((service, method))
}

/// Why a request is answered with an error.
#[derive(Debug, Clone, Copy, PartialEq, Eq, Structural)]
pub enum RequestError {
    /// The path is no gRPC path.
    InvalidPath(PathError),
    /// The routing table does not hold the service, or holds it without
    /// upstreams.
    UnknownService,
    /// A `Vary` value is no header text.
    InvalidVaryHeader,
    /// The body of a request to a cached method is larger than the buffer.
    BodyTooLarge,
    /// The service has no upstream that can be used.
    NoUpstream,
}

impl RequestError {
    /// The HTTP status with which the error is answered. A `Vary` header
    /// that cannot be read is answered as an error of the server itself.
    pub fn status(&self) -> (r: u16)
        ensures
            r == match *self {
                RequestError::InvalidPath(_) => 400u16,
                RequestError::UnknownService => 404u16,
                RequestError::InvalidVaryHeader => 500u16,
                RequestError::BodyTooLarge => 413u16,
                RequestError::NoUpstream => 502u16,
            },
    {
        match self {
            RequestError::InvalidPath(_) => 400,
            RequestError::UnknownService => 404,
            RequestError::InvalidVaryHeader => 500,
            RequestError::BodyTooLarge => 413,
            RequestError::NoUpstream => 502,
        }
    }
}

/// Why the response of a request is not stored.
#[derive(Debug, Clone, Copy, PartialEq, Eq, Structural)]
pub enum NoCacheReason {
    /// The response ended without trailers.
    NoTrailers,
    /// The trailers hold no gRPC status that can be read.
    InvalidTrailers,
    /// The trailers report a gRPC status other than zero.
    NonCachableTrailers,
}

/// What is kept for a request to a cached method.
#[derive(Debug, Clone, Copy, PartialEq, Eq, Structural)]
pub struct CacheState {
    /// For how many seconds a stored response is served.
    pub ttl: i32,
}

/// Where a request stands once its headers were read.
#[derive(Debug, Clone, Copy, PartialEq, Eq, Structural)]
pub enum ProxyLogicState {
    /// Nothing is known of the request yet.
    Init,
    /// The request goes to a cached method.
    DoCache(CacheState),
    /// The request is passed on without caching.
    Bypass,
}

impl ProxyLogicState {
    /// The state of a request of which nothing is known.
    pub fn init() -> (s: ProxyLogicState)
        ensures
            s == ProxyLogicState::Init,
    {
        ProxyLogicState::Init
    }
}

/// What the proxy has found out about the request's service and method.
#[derive(Debug)]
pub struct GrpcMeta {
    pub service_data: ServiceData,
    pub method_name: String,
    pub vary_set: HeaderSet,
}

/// The time to live with which the method `method` of a service is
/// cached: the service has a spec, the spec has the method, and the
/// method has a cache spec with a time to live above zero.
pub open spec fn cache_ttl_of(data: ServiceData, method: Seq<char>) -> Option<i32> {
    match data.service_spec {
        Some(spec) => if method_index(spec.methods@, method) >= 0 {
            method_cache_ttl(spec.methods@[method_index(spec.methods@, method)])
        } else {
            None
        },
        None => None,
    }
}

/// Whether a request for `method` deserves a warning: the service has a
/// spec that is not passed through, and the spec does not have the
/// method.
pub open spec fn is_unknown_method(data: ServiceData, method: Seq<char>) -> bool {
    data.service_spec matches Some(spec) && !spec.passthrough && method_index(
        spec.methods@,
        method,
    ) < 0
}

impl GrpcMeta {
    /// The spec of the request's method, where the service has one.
    pub fn method_spec(&self) -> (r: Option<&MethodSpec>)
        ensures
            match self.service_data.service_spec {
                Some(spec) => match r {
                    Some(m) => method_index(spec.methods@, self.method_name@) >= 0 && *m
                        == spec.methods@[method_index(spec.methods@, self.method_name@)],
                    None => method_index(spec.methods@, self.method_name@) == -1,
                },
                None => r is None,
            },
    {
        match &self.service_data.service_spec {
            Some(spec) => spec.method(self.method_name.as_str()),
            None => None,
        }
    }

    /// The time to live with which the request's method is cached.
    pub fn cache_ttl(&self) -> (r: Option<i32>)
        ensures
            r == cache_ttl_of(self.service_data, self.method_name@),
    {
        match self.method_spec() {
            Some(m) => m.cache_ttl(),
            None => None,
        }
    }
}

/// What the proxy keeps for one request.
#[derive(Debug)]
pub struct RequestCtx {
    state: ProxyLogicState,
    grpc_meta: Option<GrpcMeta>,
    cache_enabled: bool,
    no_cache_reason: Option<NoCacheReason>,
}

/// What the caller does after a request was classified.
#[derive(Debug, Clone, Copy, PartialEq, Eq, Structural)]
pub enum FilterAction {
    /// Pass the request on; nothing is cached.
    Forward {
        /// The service has a spec, but the spec does not know the method.
        unknown_method: bool,
    },
    /// Buffer the request body for a retry, read it to its end, and hand
    /// it to `body_buffered`.
    BufferBody,
}

/// The upstream connection to open.
#[derive(Debug)]
pub struct UpstreamPeer {
    pub backend: Backend,
    /// Whether the connection is encrypted. It is not.
    pub tls: bool,
    /// The server name to present. It is empty.
    pub sni: String,
    /// Whether HTTP/2 is asked for by ALPN. It is.
    pub alpn_h2: bool,
}

/// How long a stored response is kept by the cache itself.
#[derive(Debug, Clone, Copy, PartialEq, Eq, Structural)]
pub struct CacheMetaPlan {
    /// Until when the stored response is fresh, in seconds.
    pub fresh_until: u64,
    /// When the response was stored, in seconds.
    pub created: u64,
    pub stale_while_revalidate_sec: u32,
    pub stale_if_error_sec: u32,
}

/// For how many seconds the cache itself takes a stored response as
/// fresh. Whether a hit is served is decided by the method's own time to
/// live.
pub const STORE_FRESH_SECS: u64 = 60;

/// What the trailers of a response say of storing it: nothing against it
/// if they report the gRPC status zero; else the reason why the response
/// is not stored.
pub open spec fn trailer_verdict(values: Seq<Seq<u8>>) -> Option<NoCacheReason> {
    if values.len() == 0 || !valid_utf8(values[0]) {
        Some(NoCacheReason::InvalidTrailers)
    } else {
        match status_code_of(values[0]) {
            None => Some(NoCacheReason::InvalidTrailers),
            Some(code) => if code == 0 {
                None
            } else {
                Some(NoCacheReason::NonCachableTrailers)
            },
        }
    }
}

/// The cache after a response was handled: the response is written under
/// its key if storing is still enabled, else the cache is as it was.
pub open spec fn cache_after(
    cache: Map<Seq<u8>, Seq<u8>>,
    enabled: bool,
    key: Seq<u8>,
    value: Seq<u8>,
) -> Map<Seq<u8>, Seq<u8>> {
    if enabled {
        cache.insert(key, value)
    } else {
        cache
    }
}

impl RequestCtx {
    /// Where the request stands.
    pub closed spec fn state(&self) -> ProxyLogicState {
        self.state
    }

    /// What was found out about service and method.
    pub closed spec fn meta(&self) -> Option<GrpcMeta> {
        self.grpc_meta
    }

    /// Whether the response will be stored, as things stand.
    pub closed spec fn cache_enabled_spec(&self) -> bool {
        self.cache_enabled
    }

    /// Why the response is not stored, where storing was switched off.
    pub closed spec fn no_cache_reason_spec(&self) -> Option<NoCacheReason> {
        self.no_cache_reason
    }

    /// Whether the request goes to a cached method.
    pub open spec fn do_cache_spec(&self) -> bool {
        self.state() is DoCache
    }

    /// A request to a cached method has its service and method known, and
    /// the method is cached with the time to live that the state holds.
    /// Storing is enabled only for such a request.
    pub open spec fn wf(&self) -> bool {
        &&& self.state() matches ProxyLogicState::DoCache(c) ==> {
            &&& c.ttl > 0
            &&& self.meta() matches Some(m)
            &&& cache_ttl_of(m.service_data, m.method_name@) == Some(c.ttl)
            &&& m.vary_set.wf()
            &&& names_without_zero(m.vary_set@)
        }
        &&& self.cache_enabled_spec() ==> self.state() is DoCache
    }

    /// The context of a request of which nothing is known.
    pub fn new() -> (ctx: RequestCtx)
        ensures
            ctx.wf(),
            ctx.state() == ProxyLogicState::Init,
            ctx.meta() is None,
            !ctx.cache_enabled(),
            ctx.no_cache_reason() is None,
    {
        RequestCtx {
            state: ProxyLogicState::Init,
            grpc_meta: None,
            cache_enabled: false,
            no_cache_reason: None,
        }
    }

    /// Whether the request goes to a cached method.
    #[verifier::when_used_as_spec(do_cache_spec)]
    pub fn do_cache(&self) -> (r: bool)
        ensures
            r == self.do_cache_spec(),
    {
        match self.state {
            ProxyLogicState::DoCache(_) => true,
            _ => false,
        }
    }

    /// Where the request stands.
    pub fn logic_state(&self) -> (s: ProxyLogicState)
        ensures
            s == self.state(),
    {
        self.state
    }

    /// Whether the response will be stored, as things stand.
    #[verifier::when_used_as_spec(cache_enabled_spec)]
    pub fn cache_enabled(&self) -> (r: bool)
        ensures
            r == self.cache_enabled_spec(),
    {
        self.cache_enabled
    }

    /// Why the response is not stored, where storing was switched off.
    #[verifier::when_used_as_spec(no_cache_reason_spec)]
    pub fn no_cache_reason(&self) -> (r: Option<NoCacheReason>)
        ensures
            r == self.no_cache_reason_spec(),
    {
        self.no_cache_reason
    }

    /// What was found out about service and method.
    pub fn grpc_meta(&self) -> (r: &Option<GrpcMeta>)
        ensures
            *r == self.meta(),
    {
        &self.grpc_meta
    }

    /// Switches storing off, for the reason given. The first reason
    /// stays.
    fn disable(&mut self, reason: NoCacheReason)
        requires
            old(self).wf(),
        ensures
            final(self).wf(),
            !final(self).cache_enabled(),
            final(self).no_cache_reason() == (match old(self).no_cache_reason() {
                Some(first) => Some(first),
                None => Some(reason),
            }),
            final(self).state() == old(self).state(),
            final(self).meta() == old(self).meta(),
    {
        self.cache_enabled = false;
        if self.no_cache_reason.is_none() {
            self.no_cache_reason = Some(reason);
        }
    }
}

/// The proxy: what is the same for all requests.
#[derive(Debug)]
pub struct GrpcProxy {
    propagation: HeaderSet,
}

impl GrpcProxy {
    /// The headers that are passed to the upstream without being part of
    /// the cache key.
    pub closed spec fn propagation(&self) -> Seq<Seq<u8>> {
        self.propagation@
    }

    /// The propagation headers are a set.
    pub closed spec fn wf(&self) -> bool {
        self.propagation.wf()
    }

    /// A proxy that lets the headers of `propagation` pass to the
    /// upstream.
    pub fn new(propagation: HeaderSet) -> (p: GrpcProxy)
        requires
            propagation.wf(),
        ensures
            p.wf(),
            p.propagation() == propagation@,
    {
        GrpcProxy { propagation }
    }

    /// The context of a new request.
    pub fn new_ctx(&self) -> (ctx: RequestCtx)
        ensures
            ctx.wf(),
            ctx.state() == ProxyLogicState::Init,
            ctx.meta() is None,
            !ctx.cache_enabled(),
            ctx.no_cache_reason() is None,
    {
        RequestCtx::new()
    }

    /// Classifies the request by its path, the routing table and its
    /// headers.
    ///
    /// A path that is no gRPC path is refused. So is a service that the
    /// table does not hold or holds without upstreams, and a `Vary` value
    /// that is no header text. Else the request goes to a cached method
    /// exactly if the method has a cache spec with a time to live above
    /// zero; its body is then to be buffered. Any other request is passed
    /// on.
    pub fn request_filter(&self, ctx: &mut RequestCtx, services: &ServiceConfigInner,
        path: &[u8],
        headers: &http::HeaderMap,
    ) -> (r: Result<FilterAction, RequestError>)
        ensures
            final(ctx).wf(),
            !final(ctx).cache_enabled(),
            final(ctx).no_cache_reason() == old(ctx).no_cache_reason(),
            match grpc_path(path@) {
                Err(e) => r == Err::<FilterAction, RequestError>(RequestError::InvalidPath(e)),
                Ok((service, method)) => {
                    let name = decode_utf8(service);
                    let vary = values_of(header_entries(*headers), vary_header());
                    if !services@.contains_key(name) || services@[name].load_balancer is None {
                        r == Err::<FilterAction, RequestError>(RequestError::UnknownService)
                    } else if exists|i: int| 0 <= i < vary.len() && !is_text(#[trigger] vary[i]) {
                        r == Err::<FilterAction, RequestError>(RequestError::InvalidVaryHeader)
                    } else {
                        let data = services@[name];
                        &&& final(ctx).meta() matches Some(m)
                        &&& m.service_data == data
                        &&& m.method_name@ == decode_utf8(method)
                        &&& m.vary_set.wf()
                        &&& names_without_zero(m.vary_set@)
                        &&& holds_both(m.vary_set@, Seq::empty(), vary_names(vary))
                        &&& match cache_ttl_of(data, decode_utf8(method)) {
                            Some(ttl) => r == Ok::<FilterAction, RequestError>(
                                FilterAction::BufferBody,
                            ) && final(ctx).state() == ProxyLogicState::DoCache(
                                CacheState { ttl },
                            ),
                            None => r == Ok::<FilterAction, RequestError>(
                                FilterAction::Forward {
                                    unknown_method: is_unknown_method(data, decode_utf8(method)),
                                },
                            ) && final(ctx).state() == ProxyLogicState::Bypass,
                        }
                    }
                },
            },
            r is Err ==> final(ctx).state() == ProxyLogicState::Bypass && final(ctx).meta()
                is None,
    {
        ctx.state = ProxyLogicState::Bypass;
        ctx.grpc_meta = None;
        ctx.cache_enabled = false;
        let (service_name, method) = match parse_grpc_path(path) {
            Ok(names) => names,
            Err(e) => {
                return Err(RequestError::InvalidPath(e));
            },
        };
        proof {
            encode_utf8_decode_utf8(service_name@);
            encode_utf8_decode_utf8(method@);
        }
        let data = match services.get(service_name) {
            Some(data) => data,
            None => {
                return Err(RequestError::UnknownService);
            },
        };
        if data.load_balancer.is_none() {
            return Err(RequestError::UnknownService);
        }
        let vary_set = match make_vary_headers_set(headers) {
            Ok(set) => set,
            Err(_) => {
                return Err(RequestError::InvalidVaryHeader);
            },
        };
        let unknown_method = match &data.service_spec {
            Some(spec) => !spec.passthrough && spec.method(method).is_none(),
            None => false,
        };
        let meta = GrpcMeta { service_data: data, method_name: method.to_owned(), vary_set };
        let ttl = meta.cache_ttl();
        ctx.grpc_meta = Some(meta);
        match ttl {
            Some(ttl) => {
                ctx.state = ProxyLogicState::DoCache(CacheState { ttl });
                Ok(FilterAction::BufferBody)
            },
            None => Ok(FilterAction::Forward { unknown_method }),
        }
    }

    /// Takes in the buffered body of a request to a cached method.
    ///
    /// A body that did not fit the buffer is refused. Else every request
    /// header is named that has to be taken off the request: all but the
    /// core headers, the headers that the request names in `Vary`, and
    /// the propagation headers of the proxy.
    pub fn body_buffered(&self, ctx: &RequestCtx, truncated: bool, headers: &http::HeaderMap) -> (r:
        Result<Vec<String>, RequestError>)
        requires
            ctx.wf(),
            ctx.do_cache(),
        ensures
            truncated ==> r == Err::<Vec<String>, RequestError>(RequestError::BodyTooLarge),
            !truncated ==> (r matches Ok(strip) && text_bytes(strip@) == strip_names(
                names_of(header_entries(*headers)),
                ctx.meta()->0.vary_set@,
                self.propagation(),
            )),
    {
        if truncated {
            return Err(RequestError::BodyTooLarge);
        }
        match &ctx.grpc_meta {
            Some(meta) => Ok(find_strip_headers(headers, &meta.vary_set, &self.propagation)),
            None => Ok(Vec::new()),
        }
    }

    /// Switches storing on for a request to a cached method. Tells whether
    /// the cache is to be enabled for the request.
    pub fn request_cache_filter(&self, ctx: &mut RequestCtx) -> (enable: bool)
        requires
            old(ctx).wf(),
        ensures
            final(ctx).wf(),
            enable == old(ctx).do_cache(),
            final(ctx).cache_enabled() == (old(ctx).cache_enabled() || (old(ctx).do_cache()
                && old(ctx).no_cache_reason() is None)),
            final(ctx).state() == old(ctx).state(),
            final(ctx).meta() == old(ctx).meta(),
            final(ctx).no_cache_reason() == old(ctx).no_cache_reason(),
    {
        if ctx.do_cache() {
            if ctx.no_cache_reason.is_none() {
                ctx.cache_enabled = true;
            }
            true
        } else {
            false
        }
    }

    /// The cache key of a request to a cached method: the fingerprint of
    /// its vary headers, its path and its body.
    pub fn cache_key_callback(&self, ctx: &RequestCtx, headers: &http::HeaderMap, path: &[u8], body: &[u8]) -> (r:
        [u8; 16])
        requires
            ctx.wf(),
            ctx.do_cache(),
        ensures
            r@ == blake2b_128(
                key_preimage(
                    vary_pairs(ctx.meta()->0.vary_set@, header_entries(*headers)),
                    path@,
                    body@,
                ),
            ),
    {
        match &ctx.grpc_meta {
            Some(meta) => cache_key(&meta.vary_set, headers, path, body),
            None => {
                proof {
                    assert(false);
                }
                [0u8; 16]
            },
        }
    }

    /// Whether a stored response of the age `age_secs` is served: it is,
    /// if it is younger than the method's time to live.
    pub fn cache_hit_filter(&self, ctx: &RequestCtx, age_secs: u64) -> (hit: bool)
        requires
            ctx.wf(),
            ctx.do_cache(),
        ensures
            hit == (age_secs < ctx.state()->DoCache_0.ttl),
    {
        match ctx.state {
            ProxyLogicState::DoCache(c) => age_secs < c.ttl as u64,
            _ => false,
        }
    }

    /// Looks at a piece of the response body. A body that ends the
    /// response has no trailers behind it: the response is passed on, but
    /// not stored.
    pub fn upstream_response_body_filter(&self, ctx: &mut RequestCtx, end_of_stream: bool)
        requires
            old(ctx).wf(),
        ensures
            final(ctx).wf(),
            final(ctx).state() == old(ctx).state(),
            final(ctx).meta() == old(ctx).meta(),
            end_of_stream ==> !final(ctx).cache_enabled() && final(ctx).no_cache_reason() == (
            match old(ctx).no_cache_reason() {
                Some(first) => Some(first),
                None => Some(NoCacheReason::NoTrailers),
            }),
            !end_of_stream ==> final(ctx).cache_enabled() == old(ctx).cache_enabled() && final(ctx).no_cache_reason() == old(ctx).no_cache_reason(),
    {
        if end_of_stream {
            ctx.disable(NoCacheReason::NoTrailers);
        }
    }

    /// Looks at the trailers of the response. The response stays to be
    /// stored only if the trailers report the gRPC status zero; without a
    /// status that can be read, or with any other status, it is passed on
    /// but not stored.
    pub fn upstream_response_trailer_filter(&self, ctx: &mut RequestCtx, upstream_trailers: &http::HeaderMap)
        requires
            old(ctx).wf(),
        ensures
            final(ctx).wf(),
            final(ctx).state() == old(ctx).state(),
            final(ctx).meta() == old(ctx).meta(),
            final(ctx).cache_enabled() == stays_enabled(
                old(ctx).cache_enabled(),
                values_of(header_entries(*upstream_trailers), status_header()),
            ),
            ({
                let verdict = trailer_verdict(
                    values_of(header_entries(*upstream_trailers), status_header()),
                );
                match verdict {
                    None => final(ctx).cache_enabled() == old(ctx).cache_enabled() && final(ctx).no_cache_reason() == old(ctx).no_cache_reason(),
                    Some(reason) => !final(ctx).cache_enabled() && final(ctx).no_cache_reason()
                        == (match old(ctx).no_cache_reason() {
                        Some(first) => Some(first),
                        None => Some(reason),
                    }),
                }
            }),
    {
        match GrpcStatus::parse(upstream_trailers) {
            Err(_) => {
                ctx.disable(NoCacheReason::InvalidTrailers);
            },
            Ok(status) => {
                if !status.is_ok() {
                    ctx.disable(NoCacheReason::NonCachableTrailers);
                }
            },
        }
    }

    /// How the cache itself is to keep the response of a miss: fresh for
    /// `STORE_FRESH_SECS` from `now`, with ten seconds of grace each for
    /// revalidation and for errors. Whether the response is stored at all
    /// is decided by the trailers.
    pub fn response_cache_filter(&self, ctx: &RequestCtx, now: u64) -> (plan: CacheMetaPlan)
        requires
            now + STORE_FRESH_SECS <= u64::MAX,
        ensures
            plan.created == now,
            plan.fresh_until == now + STORE_FRESH_SECS,
            plan.stale_while_revalidate_sec == 10,
            plan.stale_if_error_sec == 10,
    {
        CacheMetaPlan {
            fresh_until: now + STORE_FRESH_SECS,
            created: now,
            stale_while_revalidate_sec: 10,
            stale_if_error_sec: 10,
        }
    }

    /// The upstream connection for the request, given the backend that
    /// the round-robin selector of the service picked: plain HTTP/2 to
    /// that backend. Without a backend the request fails.
    pub fn upstream_peer(&self, ctx: &RequestCtx, selected: Option<Backend>) -> (r: Result<UpstreamPeer, RequestError>)
        ensures
            match selected {
                Some(backend) => r matches Ok(peer) && peer.backend == backend && !peer.tls
                    && peer.alpn_h2 && peer.sni@.len() == 0,
                None => r matches Err(e) && e == RequestError::NoUpstream,
            },
    {
        match selected {
            Some(backend) => Ok(
                UpstreamPeer { backend, tls: false, sni: String::new(), alpn_h2: true },
            ),
            None => Err(RequestError::NoUpstream),
        }
    }

    /// What is stored for the response of a miss, and where: nothing if
    /// storing was switched off for the request; else what the finished
    /// miss gives.
    pub fn finish_miss(&self, ctx: &RequestCtx, miss: crate::cache::RedisCacheMiss, pools: &crate::cache::RedisPools) -> (r:
        Option<crate::cache::StoreRequest>)
        requires
            ctx.wf(),
            pools.wf(),
        ensures
            !ctx.cache_enabled() ==> r is None,
            r matches Some(req) ==> req.key == miss.key() && req.value@ == crate::cache::entry_bytes(
                miss.meta().0,
                miss.meta().1,
                miss.body(),
            ),
            (ctx.cache_enabled() && pools.has_ring() && crate::ring::routed(
                pools.servers(),
                miss.key()@,
                pools.pooled(),
                pools.unhealthy(),
                crate::cache::MAX_PROBES as int,
            ) is Some) ==> r is Some,
    {
        if ctx.cache_enabled {
            miss.finish(pools)
        } else {
            None
        }
    }
}

/// A gRPC path is not empty: it begins with `/`.
pub proof fn lemma_grpc_path_is_not_empty(path: Seq<u8>)
    requires
        grpc_path(path) is Ok,
    ensures
        path.len() >= 1,
{
    if path.len() == 0 {
        assert(split_on(path, SLASH) =~= seq![path]);
    }
}

/// Requests to cached methods that differ in a vary header, in the path
/// or in the body, in any byte, have different bytes digested into their
/// cache keys: the bytes can be read back in one way only.
///
/// The requests are those that were classified as cached, each with the
/// vary set of its context. This holds of requests whose header values
/// and paths hold no zero byte, and whose paths are shorter than 2^32
/// bytes.
pub proof fn lemma_cache_key_bytes_tell_requests_apart(
    ctx1: RequestCtx,
    entries1: Seq<(Seq<u8>, Seq<u8>)>,
    path1: Seq<u8>,
    body1: Seq<u8>,
    ctx2: RequestCtx,
    entries2: Seq<(Seq<u8>, Seq<u8>)>,
    path2: Seq<u8>,
    body2: Seq<u8>,
)
    requires
        ctx1.wf(),
        ctx1.do_cache(),
        ctx2.wf(),
        ctx2.do_cache(),
        grpc_path(path1) is Ok,
        grpc_path(path2) is Ok,
        values_without_zero(entries1),
        values_without_zero(entries2),
        nul_free(path1),
        nul_free(path2),
        path1.len() < 0x1_0000_0000,
        path2.len() < 0x1_0000_0000,
        body1.len() <= u64::MAX,
        body2.len() <= u64::MAX,
        key_preimage(vary_pairs(ctx1.meta()->0.vary_set@, entries1), path1, body1) == key_preimage(
            vary_pairs(ctx2.meta()->0.vary_set@, entries2),
            path2,
            body2,
        ),
    ensures
        vary_pairs(ctx1.meta()->0.vary_set@, entries1) == vary_pairs(
            ctx2.meta()->0.vary_set@,
            entries2,
        ),
        ctx1.meta()->0.vary_set@ == ctx2.meta()->0.vary_set@,
        path1 == path2,
        body1 == body2,
{
    let names1 = ctx1.meta()->0.vary_set@;
    let names2 = ctx2.meta()->0.vary_set@;
    lemma_grpc_path_is_not_empty(path1);
    lemma_grpc_path_is_not_empty(path2);
    lemma_vary_pairs_are_valid(names1, entries1);
    lemma_vary_pairs_are_valid(names2, entries2);
    lemma_key_preimage_injective(
        vary_pairs(names1, entries1),
        path1,
        body1,
        vary_pairs(names2, entries2),
        path2,
        body2,
    );
    assert(names1 =~= names2) by {
        assert(vary_pairs(names1, entries1).len() == vary_pairs(names2, entries2).len());
        assert forall|i: int| 0 <= i < names1.len() implies names1[i] == names2[i] by {
            assert(vary_pairs(names1, entries1)[i].0 == names1[i]);
            assert(vary_pairs(names2, entries2)[i].0 == names2[i]);
        }
    }
}

/// Whether storing stays enabled after the trailers were looked at: it
/// was enabled, and the trailers report the gRPC status zero.
pub open spec fn stays_enabled(enabled: bool, values: Seq<Seq<u8>>) -> bool {
    enabled && trailer_verdict(values) is None
}

/// A response whose trailers do not report the gRPC status zero is not
/// stored: storing is switched off whatever it was, so the cache holds
/// under the request's key what it held before. A later request with the
/// same key finds what it would have found; after a miss it misses again.
pub proof fn lemma_failed_response_is_not_stored(
    enabled: bool,
    values: Seq<Seq<u8>>,
    cache: Map<Seq<u8>, Seq<u8>>,
    key: Seq<u8>,
    value: Seq<u8>,
)
    requires
        !(values.len() > 0 && valid_utf8(values[0]) && status_code_of(values[0]) == Some(0int)),
    ensures
        !stays_enabled(enabled, values),
        cache_after(cache, stays_enabled(enabled, values), key, value) == cache,
        !cache.contains_key(key) ==> !cache_after(
            cache,
            stays_enabled(enabled, values),
            key,
            value,
        ).contains_key(key),
{
}

} // verus!
