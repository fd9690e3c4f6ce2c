//! The sharded cache: how an entry is framed, to which shard a key goes,
//! and what a lookup and a store decide.
//!
//! A stored entry is one version byte, zero today, followed by an
//! envelope that holds the two blobs of the cache metadata and the body,
//! each with its length in front as eight bytes, lowest byte first. An
//! entry with any other version byte is treated as absent.

use vstd::prelude::*;
use vstd::bytes::*;
use crate::discovery::{holds_endpoint, sifted, Backend, BackendSet};
use crate::hash::le8;
use vstd::string::*;
use crate::ring::{endpoint_text, push_endpoint, routed, HashRing};
use crate::text::append_bytes;

verus! {

/// The version byte of the entries that are written today.
pub const ENTRY_VERSION: u8 = 0;

/// How many candidates are probed when a key is routed to a shard.
pub const MAX_PROBES: usize = 255;

/// What is stored for a response: the two blobs of its cache metadata and
/// its body.
#[derive(Debug)]
pub struct CacheData {
    pub cache_meta: (Vec<u8>, Vec<u8>),
    pub data: Vec<u8>,
}

/// One field of an envelope: its length as eight bytes, then its bytes.
pub open spec fn field_bytes(field: Seq<u8>) -> Seq<u8> {
    le8(field.len()) + field
}

/// The envelope of an entry: the two metadata blobs and the body, each as
/// a field.
pub open spec fn envelope_bytes(meta0: Seq<u8>, meta1: Seq<u8>, data: Seq<u8>) -> Seq<u8> {
    field_bytes(meta0) + field_bytes(meta1) + field_bytes(data)
}

/// The field that starts at `at` in `s`, and where the next one starts.
/// `None` where `s` ends before the field does.
pub open spec fn read_field(s: Seq<u8>, at: int) -> Option<(Seq<u8>, int)> {
    if 0 <= at && at + 8 <= s.len() {
        let n = spec_u64_from_le_bytes(s.subrange(at, at + 8)) as int;
        if at + 8 + n <= s.len() {
            Some((s.subrange(at + 8, at + 8 + n), at + 8 + n))
        } else {
            None
        }
    } else {
        None
    }
}

/// The entry that the envelope `s` holds: three fields. Bytes behind the
/// third field are passed over. `None` where `s` ends too early.
pub open spec fn envelope_fields(s: Seq<u8>) -> Option<(Seq<u8>, Seq<u8>, Seq<u8>)> {
    match read_field(s, 0) {
        Some((meta0, a)) => match read_field(s, a) {
            Some((meta1, b)) => match read_field(s, b) {
                Some((data, _)) => Some((meta0, meta1, data)),
                None => None,
            },
            None => None,
        },
        None => None,
    }
}

/// `bincode::serialize` on the three parts of an entry, as the pair of
/// metadata blobs and the body: the envelope of the entry. Writing to
/// memory without a size limit, it does not fail.
#[verifier::external_body]
pub(crate) fn bincode_serialize(meta0: &Vec<u8>, meta1: &Vec<u8>, data: &Vec<u8>) -> (r: Option<
    Vec<u8>,
>)
    ensures
        r is Some,
        r->0@ == envelope_bytes(meta0@, meta1@, data@),
{
    bincode::serialize(&((meta0, meta1), data)).ok()
}

/// `bincode::deserialize` for the three parts of an entry: the fields of
/// the envelope, or nothing where the bytes end too early.
#[verifier::external_body]
pub(crate) fn bincode_deserialize(bytes: &[u8]) -> (r: Option<(Vec<u8>, Vec<u8>, Vec<u8>)>)
    ensures
        match envelope_fields(bytes@) {
            Some(fields) => r matches Some(got) && got.0@ == fields.0 && got.1@ == fields.1
                && got.2@ == fields.2,
            None => r is None,
        },
{
    match bincode::deserialize::<((Vec<u8>, Vec<u8>), Vec<u8>)>(bytes) {
        Ok(((meta0, meta1), data)) => Some((meta0, meta1, data)),
        Err(_) => None,
    }
}

/// The bytes that are stored for an entry: the version byte and the
/// envelope.
pub open spec fn entry_bytes(meta0: Seq<u8>, meta1: Seq<u8>, data: Seq<u8>) -> Seq<u8> {
    seq![ENTRY_VERSION] + envelope_bytes(meta0, meta1, data)
}

/// The entry that stored bytes hold. Nothing where there are no bytes,
/// the version byte is not zero, or the envelope ends too early.
pub open spec fn entry_of(blob: Seq<u8>) -> Option<(Seq<u8>, Seq<u8>, Seq<u8>)> {
    if blob.len() > 0 && blob[0] == ENTRY_VERSION {
        envelope_fields(blob.subrange(1, blob.len() as int))
    } else {
        None
    }
}

/// Frames an entry for storing.
pub fn encode_entry(entry: &CacheData) -> (r: Vec<u8>)
    ensures
        r@ == entry_bytes(entry.cache_meta.0@, entry.cache_meta.1@, entry.data@),
{
    let mut out: Vec<u8> = Vec::new();
    out.push(ENTRY_VERSION);
    match bincode_serialize(&entry.cache_meta.0, &entry.cache_meta.1, &entry.data) {
        Some(envelope) => {
            append_bytes(&mut out, envelope.as_slice());
        },
        None => {},
    }
    proof {
        assert(out@ =~= entry_bytes(entry.cache_meta.0@, entry.cache_meta.1@, entry.data@));
    }
    out
}

/// Reads a stored entry. An entry that cannot be read is treated as
/// absent.
pub fn decode_entry(blob: &[u8]) -> (r: Option<CacheData>)
    ensures
        match entry_of(blob@) {
            Some(fields) => r matches Some(entry) && entry.cache_meta.0@ == fields.0
                && entry.cache_meta.1@ == fields.1 && entry.data@ == fields.2,
            None => r is None,
        },
{
    if blob.len() == 0 {
        return None;
    }
    if blob[0] != ENTRY_VERSION {
        return None;
    }
    let envelope = vstd::slice::slice_subrange(blob, 1, blob.len());
    match bincode_deserialize(envelope) {
        Some((meta0, meta1, data)) => Some(CacheData { cache_meta: (meta0, meta1), data }),
        None => None,
    }
}

/// A field is read back from where it was written.
pub proof fn lemma_read_field(before: Seq<u8>, field: Seq<u8>, after: Seq<u8>)
    requires
        field.len() <= u64::MAX,
    ensures
        read_field(before + field_bytes(field) + after, before.len() as int) == Some(
            (field, (before.len() + 8 + field.len()) as int),
        ),
{
    lemma_auto_spec_u64_to_from_le_bytes();
    let s = before + field_bytes(field) + after;
    let at = before.len() as int;
    assert(le8(field.len()).len() == 8);
    assert(s.subrange(at, at + 8) =~= le8(field.len()));
    assert(spec_u64_from_le_bytes(le8(field.len())) == field.len() as u64);
    assert(s.subrange(at + 8, at + 8 + field.len()) =~= field);
}

/// What is framed is read back as it was: reading the stored bytes of an
/// entry gives the entry.
pub proof fn lemma_entry_round_trip(meta0: Seq<u8>, meta1: Seq<u8>, data: Seq<u8>)
    requires
        meta0.len() <= u64::MAX,
        meta1.len() <= u64::MAX,
        data.len() <= u64::MAX,
    ensures
        entry_of(entry_bytes(meta0, meta1, data)) == Some((meta0, meta1, data)),
{
    let blob = entry_bytes(meta0, meta1, data);
    let s = blob.subrange(1, blob.len() as int);
    assert(s =~= envelope_bytes(meta0, meta1, data));
    let empty = Seq::<u8>::empty();
    assert(s =~= empty + field_bytes(meta0) + (field_bytes(meta1) + field_bytes(data)));
    lemma_read_field(empty, meta0, field_bytes(meta1) + field_bytes(data));
    assert(s =~= field_bytes(meta0) + field_bytes(meta1) + field_bytes(data));
    lemma_read_field(field_bytes(meta0), meta1, field_bytes(data));
    assert(s =~= (field_bytes(meta0) + field_bytes(meta1)) + field_bytes(data) + empty);
    lemma_read_field(field_bytes(meta0) + field_bytes(meta1), data, empty);
    lemma_auto_spec_u64_to_from_le_bytes();
    assert(field_bytes(meta0).len() == 8 + meta0.len());
    assert(field_bytes(meta1).len() == 8 + meta1.len());
}

/// An entry with another version byte than zero is treated as absent.
pub proof fn lemma_other_version_is_absent(blob: Seq<u8>)
    requires
        blob.len() > 0,
        blob[0] != ENTRY_VERSION,
    ensures
        entry_of(blob) is None,
{
}

/// `url::Url`: a URL. Nothing is claimed of it; it is only carried.
#[verifier::external_type_specification]
#[verifier::external_body]
pub struct ExUrl(url::Url);

/// Whether the crate `url` reads `text` as a URL.
pub uninterp spec fn is_url(text: Seq<char>) -> bool;

/// `url::Url::parse`: the URL that the text writes, if it writes one.
#[verifier::external_body]
pub(crate) fn url_parse(text: &str) -> (r: Option<url::Url>)
    ensures
        r is Some <==> is_url(text@),
{
    url::Url::parse(text).ok()
}

/// The text of the URL under which the cache server `backend` is reached:
/// `redis://`, and the server's endpoint.
pub fn redis_url_text(backend: Backend) -> (r: String)
    ensures
        r@ == "redis://"@ + endpoint_text(backend.ip, backend.port),
{
    let mut text = "redis://".to_owned();
    push_endpoint(&mut text, backend);
    text
}

/// The URL under which the cache server `backend` is reached.
pub fn redis_url(backend: Backend) -> (r: Option<url::Url>)
    ensures
        r is Some <==> is_url("redis://"@ + endpoint_text(backend.ip, backend.port)),
{
    let text = redis_url_text(backend);
    url_parse(text.as_str())
}

/// The shards of the cache: the ring of the cache servers, and which of
/// them can be reached.
pub struct RedisPools {
    /// The ring of the cache servers as discovery last reported them.
    /// Absent while no ring could be built.
    ring: Option<HashRing>,
    /// The cache servers for which a connection pool exists.
    pooled: BackendSet,
    /// The cache servers that fail their health check.
    unhealthy: BackendSet,
}

/// What the maintenance of the connection pools has to do after the set
/// of cache servers has changed.
#[derive(Debug)]
pub struct PoolUpdate {
    /// The servers whose pool is to be closed: they are no longer in the
    /// set.
    pub remove: BackendSet,
    /// The servers for which a pool is to be built: they are new in the
    /// set.
    pub create: BackendSet,
}

impl RedisPools {
    /// The cache servers on the ring. Empty while there is no ring.
    pub closed spec fn servers(&self) -> Seq<Backend> {
        match self.ring {
            Some(ring) => ring.backends(),
            None => Seq::empty(),
        }
    }

    /// Whether a ring was built.
    pub closed spec fn has_ring(&self) -> bool {
        self.ring is Some
    }

    /// The cache servers for which a connection pool exists.
    pub closed spec fn pooled(&self) -> Seq<Backend> {
        self.pooled@
    }

    /// The cache servers that fail their health check.
    pub closed spec fn unhealthy(&self) -> Seq<Backend> {
        self.unhealthy@
    }

    /// The ring is the ring of its servers, and the sets are sets.
    pub closed spec fn wf(&self) -> bool {
        &&& self.pooled.wf()
        &&& self.unhealthy.wf()
        &&& self.ring matches Some(ring) ==> ring.wf()
    }

    /// No servers, no pools.
    pub fn new() -> (p: RedisPools)
        ensures
            p.wf(),
            !p.has_ring(),
            p.servers() == Seq::<Backend>::empty(),
            p.pooled() == Seq::<Backend>::empty(),
            p.unhealthy() == Seq::<Backend>::empty(),
    {
        RedisPools { ring: None, pooled: BackendSet::new(), unhealthy: BackendSet::new() }
    }

    /// The shard for `key`: up to 255 candidates are probed along the
    /// ring, and the first is taken that passes its health check and has
    /// a connection pool. Without a ring there is no shard.
    pub fn select_backend(&self, key: &[u8]) -> (r: Option<Backend>)
        requires
            self.wf(),
        ensures
            !self.has_ring() ==> r is None,
            self.has_ring() ==> match routed(
                self.servers(),
                key@,
                self.pooled(),
                self.unhealthy(),
                MAX_PROBES as int,
            ) {
                Some(e) => r matches Some(b) && b.endpoint() == e && holds_endpoint(
                    self.servers(),
                    e,
                ) && holds_endpoint(self.pooled(), e) && !holds_endpoint(self.unhealthy(), e),
                None => r is None,
            },
            (self.servers().len() == 0 || self.pooled().len() == 0) ==> r is None,
    {
        match &self.ring {
            Some(ring) => {
                let r = ring.select_with(key, MAX_PROBES, &self.pooled, &self.unhealthy);
                proof {
                    crate::ring::lemma_first_accepted_is_accepted(
                        crate::ring::ketama_ring(crate::ring::buckets_of(ring.backends())),
                        crate::ring::ketama_start(crate::ring::buckets_of(ring.backends()), key@),
                        self.pooled@,
                        self.unhealthy@,
                        0,
                        MAX_PROBES as int,
                    );
                }
                r
            },
            None => None,
        }
    }

    /// The shard whose pool serves `hash`, as `select_backend` gives it.
    pub fn pool_for_hash(&self, hash: &[u8]) -> (r: Option<Backend>)
        requires
            self.wf(),
        ensures
            !self.has_ring() ==> r is None,
            self.has_ring() ==> match routed(
                self.servers(),
                hash@,
                self.pooled(),
                self.unhealthy(),
                MAX_PROBES as int,
            ) {
                Some(e) => r matches Some(b) && b.endpoint() == e && holds_endpoint(
                    self.servers(),
                    e,
                ) && holds_endpoint(self.pooled(), e) && !holds_endpoint(self.unhealthy(), e),
                None => r is None,
            },
            (self.servers().len() == 0 || self.pooled().len() == 0) ==> r is None,
    {
        match self.select_backend(hash) {
            Some(backend) => {
                if self.pooled.contains(backend.endpoint()) {
                    Some(backend)
                } else {
                    None
                }
            },
            None => None,
        }
    }

    /// Takes in the set of cache servers that discovery reports.
    ///
    /// The ring is built anew. The pools of servers that are no longer in
    /// the set are forgotten at once; the servers that are new in the set
    /// are named, so that a pool can be built for each. Until
    /// `pool_created` is told of it, such a server is not selected.
    pub fn backends_changed(&mut self, backends: &BackendSet) -> (update: PoolUpdate)
        requires
            old(self).wf(),
            backends.wf(),
        ensures
            final(self).wf(),
            final(self).has_ring() == crate::ring::ring_buildable(backends@),
            final(self).has_ring() ==> final(self).servers() == backends@,
            final(self).unhealthy() == old(self).unhealthy(),
            final(self).pooled() == sifted(old(self).pooled(), backends@, true),
            update.remove@ == sifted(old(self).pooled(), backends@, false),
            update.create@ == sifted(backends@, old(self).pooled(), false),
            update.remove.wf(),
            update.create.wf(),
    {
        let remove = self.pooled.sift(backends, false);
        let keep = self.pooled.sift(backends, true);
        let create = backends.sift(&self.pooled, false);
        self.pooled = keep;
        self.ring = HashRing::build(backends);
        PoolUpdate { remove, create }
    }

    /// Notes that a connection pool exists for `backend`.
    pub fn pool_created(&mut self, backend: Backend)
        requires
            old(self).wf(),
        ensures
            final(self).wf(),
            final(self).servers() == old(self).servers(),
            final(self).has_ring() == old(self).has_ring(),
            final(self).unhealthy() == old(self).unhealthy(),
            forall|e: u64| #[trigger]
                holds_endpoint(final(self).pooled(), e) <==> (holds_endpoint(old(self).pooled(), e)
                    || e == backend.endpoint()),
    {
        self.pooled.insert(backend);
    }

    /// Notes whether `backend` passes its health check.
    pub fn set_health(&mut self, backend: Backend, healthy: bool)
        requires
            old(self).wf(),
        ensures
            final(self).wf(),
            final(self).servers() == old(self).servers(),
            final(self).has_ring() == old(self).has_ring(),
            final(self).pooled() == old(self).pooled(),
            forall|e: u64| #[trigger]
                holds_endpoint(final(self).unhealthy(), e) <==> (if e == backend.endpoint() {
                    !healthy
                } else {
                    holds_endpoint(old(self).unhealthy(), e)
                }),
    {
        if healthy {
            let mut one = BackendSet::new();
            one.insert(backend);
            let rest = self.unhealthy.sift(&one, false);
            proof {
                assert forall|e: u64| #[trigger]
                    holds_endpoint(rest@, e) <==> (if e == backend.endpoint() {
                        false
                    } else {
                        holds_endpoint(self.unhealthy@, e)
                    }) by {
                    assert(holds_endpoint(rest@, e) <==> (holds_endpoint(self.unhealthy@, e) && (
                    holds_endpoint(one@, e) == false)));
                    assert(holds_endpoint(one@, e) <==> (holds_endpoint(
                        Seq::<Backend>::empty(),
                        e,
                    ) || e == backend.endpoint()));
                }
            }
            self.unhealthy = rest;
        } else {
            self.unhealthy.insert(backend);
        }
    }
}

/// What asking a shard for a key gave.
#[derive(Debug)]
pub enum FetchResult {
    /// No connection could be had from the pool.
    PoolError,
    /// The shard failed to answer.
    GetError,
    /// The shard holds nothing under the key.
    Missing,
    /// The shard holds these bytes under the key.
    Found(Vec<u8>),
}

/// A cache hit: the body of the stored response, to be read once.
#[derive(Debug)]
pub struct RedisCacheHit {
    data: Vec<u8>,
    done: bool,
}

impl RedisCacheHit {
    /// The body that is still to be read.
    pub closed spec fn remaining(&self) -> Option<Seq<u8>> {
        if self.done {
            None
        } else {
            Some(self.data@)
        }
    }

    /// A hit on `data` of which nothing was read.
    pub fn new(data: Vec<u8>) -> (h: RedisCacheHit)
        ensures
            h.remaining() == Some(data@),
    {
        RedisCacheHit { data, done: false }
    }

    /// Reads the body: all of it at the first call, the end of the body
    /// at every later one.
    pub fn read_body(&mut self) -> (r: Option<Vec<u8>>)
        ensures
            final(self).remaining() is None,
            match old(self).remaining() {
                Some(body) => r matches Some(got) && got@ == body,
                None => r is None,
            },
    {
        if self.done {
            None
        } else {
            self.done = true;
            let mut out: Vec<u8> = Vec::new();
            append_bytes(&mut out, self.data.as_slice());
            proof {
                assert(out@ =~= self.data@);
            }
            Some(out)
        }
    }

    /// A hit cannot be read from the middle.
    pub fn can_seek(&self) -> (r: bool)
        ensures
            !r,
    {
        false
    }
}

/// What a finished miss asks the caller to store, and where.
#[derive(Debug)]
pub struct StoreRequest {
    /// The shard to write to.
    pub backend: Backend,
    /// The key to write under.
    pub key: [u8; 16],
    /// The bytes to write. They are stored without expiry.
    pub value: Vec<u8>,
}

/// A cache miss whose response is being gathered for storing.
#[derive(Debug)]
pub struct RedisCacheMiss {
    meta: (Vec<u8>, Vec<u8>),
    hash: [u8; 16],
    value: Vec<u8>,
}

impl RedisCacheMiss {
    /// The key under which the response will be stored.
    pub closed spec fn key(&self) -> [u8; 16] {
        self.hash
    }

    /// The two blobs of the cache metadata.
    pub closed spec fn meta(&self) -> (Seq<u8>, Seq<u8>) {
        (self.meta.0@, self.meta.1@)
    }

    /// The body gathered so far.
    pub closed spec fn body(&self) -> Seq<u8> {
        self.value@
    }

    /// Takes in the next piece of the body.
    pub fn write_body(&mut self, data: &[u8], eof: bool)
        ensures
            final(self).body() == old(self).body() + data@,
            final(self).key() == old(self).key(),
            final(self).meta() == old(self).meta(),
    {
        append_bytes(&mut self.value, data);
    }

    /// Ends the miss: the shard for the key is selected anew, as the set
    /// of shards may have changed since the lookup, and the entry is
    /// framed. Without a shard nothing is to be stored.
    pub fn finish(self, pools: &RedisPools) -> (r: Option<StoreRequest>)
        requires
            pools.wf(),
        ensures
            !pools.has_ring() ==> r is None,
            pools.has_ring() ==> match routed(
                pools.servers(),
                self.key()@,
                pools.pooled(),
                pools.unhealthy(),
                MAX_PROBES as int,
            ) {
                Some(e) => r matches Some(req) && req.backend.endpoint() == e && req.key
                    == self.key() && req.value@ == entry_bytes(
                    self.meta().0,
                    self.meta().1,
                    self.body(),
                ),
                None => r is None,
            },
    {
        let backend = match pools.pool_for_hash(self.hash.as_slice()) {
            Some(b) => b,
            None => {
                return None;
            },
        };
        let entry = CacheData { cache_meta: self.meta, data: self.value };
        let value = encode_entry(&entry);
        Some(StoreRequest { backend, key: self.hash, value })
    }
}

/// What became of a store.
#[derive(Debug, Clone, Copy, PartialEq, Eq, Structural)]
pub enum StoreResult {
    /// There was no shard to write to.
    NoShard,
    /// No connection could be had from the pool.
    PoolError,
    /// The shard failed to take the entry.
    SetError,
    /// The entry was written.
    Stored,
}

/// The size that a finished miss reports: the number of bytes that were
/// handed to the shard, written or not; zero where no shard or no
/// connection was there. A failed store is never an error.
pub fn stored_size(result: StoreResult, value_len: usize) -> (n: usize)
    ensures
        n == match result {
            StoreResult::NoShard => 0,
            StoreResult::PoolError => 0,
            StoreResult::SetError => value_len,
            StoreResult::Stored => value_len,
        },
{
    match result {
        StoreResult::NoShard => 0,
        StoreResult::PoolError => 0,
        StoreResult::SetError => value_len,
        StoreResult::Stored => value_len,
    }
}

/// The cache that is spread over the shards.
pub struct RedisReplicasCacheBackend {
    pools: RedisPools,
}

impl RedisReplicasCacheBackend {
    /// The shards of the cache.
    pub closed spec fn shards(&self) -> RedisPools {
        self.pools
    }

    /// A cache over the shards `pools`.
    pub fn new(pools: RedisPools) -> (c: RedisReplicasCacheBackend)
        ensures
            c.shards() == pools,
    {
        RedisReplicasCacheBackend { pools }
    }

    /// The shards of the cache.
    pub fn pools(&self) -> (p: &RedisPools)
        ensures
            *p == self.shards(),
    {
        &self.pools
    }

    /// The shards of the cache, for the maintenance of the pools.
    pub fn pools_mut(&mut self) -> (p: &mut RedisPools)
        ensures
            *p == old(self).shards(),
            *final(p) == final(self).shards(),
    {
        &mut self.pools
    }

    /// Begins a lookup: names the shard to ask for `key`. Without a shard
    /// the lookup is a miss.
    pub fn lookup_shard(&self, key: &[u8]) -> (r: Option<Backend>)
        requires
            self.shards().wf(),
        ensures
            !self.shards().has_ring() ==> r is None,
            self.shards().has_ring() ==> match routed(
                self.shards().servers(),
                key@,
                self.shards().pooled(),
                self.shards().unhealthy(),
                MAX_PROBES as int,
            ) {
                Some(e) => r matches Some(b) && b.endpoint() == e && holds_endpoint(
                    self.shards().servers(),
                    e,
                ) && holds_endpoint(self.shards().pooled(), e),
                None => r is None,
            },
    {
        self.pools.pool_for_hash(key)
    }

    /// Ends a lookup: what the shard gave is a hit only if it holds bytes
    /// under the key and the bytes are an entry of version zero that can
    /// be read. A failure of the pool or of the shard is a miss.
    pub fn lookup(&self, fetched: FetchResult) -> (r: Option<CacheData>)
        ensures
            match fetched {
                FetchResult::Found(blob) => match entry_of(blob@) {
                    Some(fields) => r matches Some(entry) && entry.cache_meta.0@ == fields.0
                        && entry.cache_meta.1@ == fields.1 && entry.data@ == fields.2,
                    None => r is None,
                },
                _ => r is None,
            },
    {
        match fetched {
            FetchResult::Found(blob) => decode_entry(blob.as_slice()),
            _ => None,
        }
    }

    /// Begins a miss: the response will be stored under `key` with the
    /// metadata `meta`.
    pub fn get_miss_handler(&self, key: [u8; 16], meta: (Vec<u8>, Vec<u8>)) -> (m: RedisCacheMiss)
        ensures
            m.key() == key,
            m.meta() == (meta.0@, meta.1@),
            m.body() == Seq::<u8>::empty(),
    {
        RedisCacheMiss { meta, hash: key, value: Vec::new() }
    }

    /// Purging is not done: nothing is removed, and the answer is no.
    pub fn purge(&self, key: &[u8]) -> (r: bool)
        ensures
            !r,
    {
        false
    }

    /// Metadata is not updated in place: the answer is no.
    pub fn update_meta(&self, key: &[u8], meta: &(Vec<u8>, Vec<u8>)) -> (r: bool)
        ensures
            !r,
    {
        false
    }
}

/// A miss handler that stores nothing.
#[derive(Debug)]
pub struct MockMissHandler {
}

impl MockMissHandler {
    /// Takes in a piece of the body and drops it.
    pub fn write_body(&mut self, data: &[u8], eof: bool) {
    }

    /// Ends the miss and reports a size of 1000.
    pub fn finish(self) -> (n: usize)
        ensures
            n == 1000,
    {
        1000
    }
}

/// A cache that holds nothing: every lookup is a miss.
#[derive(Debug)]
pub struct MockStorage {
}

impl MockStorage {
    /// Every lookup is a miss.
    pub fn lookup(&self, key: &[u8]) -> (r: Option<CacheData>)
        ensures
            r is None,
    {
        None
    }

    /// A miss handler that stores nothing.
    pub fn get_miss_handler(&self, key: &[u8], meta: &(Vec<u8>, Vec<u8>)) -> MockMissHandler {
        MockMissHandler {  }
    }
}

} // verus!
