//! Backends and their discovery: the set of endpoints that a host name
//! resolves to, the registry of shared handles, and the steps of the loop
//! that keeps one handle's set current.

use vstd::prelude::*;
use vstd::string::*;
use crate::text::str_eq;

verus! {

/// A network endpoint that serves requests, with the weight by which it is
/// preferred.
#[derive(Debug, Clone, Copy)]
pub struct Backend {
    /// The IPv4 address, as a number.
    pub ip: u32,
    pub port: u16,
    pub weight: u32,
}

impl Backend {
    /// The endpoint as one number: the address above the port. Two backends
    /// are the same backend exactly when this number is the same.
    pub open spec fn endpoint_spec(self) -> u64 {
        (self.ip as u64 * 65536 + self.port as u64) as u64
    }

    /// The endpoint as one number.
    #[verifier::when_used_as_spec(endpoint_spec)]
    pub fn endpoint(self) -> (e: u64)
        ensures
            e == self.endpoint_spec(),
    {
        self.ip as u64 * 65536 + self.port as u64
    }

    /// A backend of weight 1.
    pub fn new(ip: u32, port: u16) -> (b: Backend)
        ensures
            b.ip == ip,
            b.port == port,
            b.weight == 1,
    {
        Backend { ip, port, weight: 1 }
    }

    /// Two backends with one endpoint have one address and one port.
    pub proof fn lemma_endpoint_identity(a: Backend, b: Backend)
        ensures
            a.endpoint() == b.endpoint() <==> (a.ip == b.ip && a.port == b.port),
    {
    }
}

impl PartialEq for Backend {
    /// Backends are compared by their endpoint alone.
    fn eq(&self, other: &Backend) -> (r: bool) {
        self.ip == other.ip && self.port == other.port
    }
}

impl vstd::std_specs::cmp::PartialEqSpecImpl for Backend {
    open spec fn obeys_eq_spec() -> bool {
        true
    }

    open spec fn eq_spec(&self, other: &Backend) -> bool {
        self.ip == other.ip && self.port == other.port
    }
}

/// The endpoints of a list of backends, in order.
pub open spec fn endpoints(items: Seq<Backend>) -> Seq<u64> {
    items.map_values(|b: Backend| b.endpoint())
}

/// Whether the endpoints of `items` ascend strictly.
pub open spec fn ascending_endpoints(items: Seq<Backend>) -> bool {
    forall|i: int, j: int|
        0 <= i < j < items.len() ==> (#[trigger] items[i]).endpoint() < (#[trigger] items[j]).endpoint()
}

/// Whether one of `items` has the endpoint `e`.
pub open spec fn holds_endpoint(items: Seq<Backend>, e: u64) -> bool {
    exists|i: int| 0 <= i < items.len() && (#[trigger] items[i]).endpoint() == e
}

/// A set of backends: no endpoint stands twice, and the backends are kept in
/// the order of their endpoints.
#[derive(Debug)]
pub struct BackendSet {
    items: Vec<Backend>,
}

impl View for BackendSet {
    type V = Seq<Backend>;

    closed spec fn view(&self) -> Seq<Backend> {
        self.items@
    }
}

impl BackendSet {
    /// The endpoints ascend strictly.
    pub open spec fn wf(&self) -> bool {
        ascending_endpoints(self@)
    }

    /// Whether the set holds a backend with this endpoint.
    pub open spec fn has(&self, endpoint: u64) -> bool {
        holds_endpoint(self@, endpoint)
    }

    /// The empty set.
    pub fn new() -> (s: BackendSet)
        ensures
            s@ == Seq::<Backend>::empty(),
            s.wf(),
    {
        BackendSet { items: Vec::new() }
    }

    /// How many backends the set holds.
    pub fn len(&self) -> (n: usize)
        ensures
            n == self@.len(),
    {
        self.items.len()
    }

    /// The backend at position `i` of the ascending order.
    pub fn get(&self, i: usize) -> (b: Backend)
        requires
            i < self@.len(),
        ensures
            b == self@[i as int],
    {
        self.items[i]
    }

    /// The position of the backend with this endpoint.
    pub fn position(&self, endpoint: u64) -> (r: Option<usize>)
        ensures
            match r {
                Some(i) => i < self@.len() && self@[i as int].endpoint() == endpoint,
                None => !self.has(endpoint),
            },
    {
        let mut i: usize = 0;
        while i < self.items.len()
            invariant
                i <= self.items.len(),
                forall|j: int| 0 <= j < i ==> (#[trigger] self@[j]).endpoint() != endpoint,
            decreases self.items.len() - i,
        {
            if self.items[i].endpoint() == endpoint {
                return Some(i);
            }
            i += 1;
        }
        None
    }

    /// Whether the set holds a backend with this endpoint.
    pub fn contains(&self, endpoint: u64) -> (r: bool)
        ensures
            r == self.has(endpoint),
    {
        self.position(endpoint).is_some()
    }

    /// Adds a backend. Where the set holds its endpoint already, the set
    /// stays as it is.
    pub fn insert(&mut self, backend: Backend) -> (added: bool)
        requires
            old(self).wf(),
        ensures
            final(self).wf(),
            added == !old(self).has(backend.endpoint()),
            forall|e: u64| #[trigger]
                holds_endpoint(final(self)@, e) <==> (holds_endpoint(old(self)@, e) || e
                    == backend.endpoint()),
            !added ==> final(self)@ == old(self)@,
            added ==> exists|p: int|
                0 <= p <= old(self)@.len() && final(self)@ == old(self)@.insert(p, backend),
    {
        let ghost before = self@;
        let key = backend.endpoint();
        let mut p: usize = 0;
        while p < self.items.len() && self.items[p].endpoint() < key
            invariant
                p <= self.items.len(),
                self@ == before,
                forall|j: int| 0 <= j < p ==> (#[trigger] before[j]).endpoint() < key,
            decreases self.items.len() - p,
        {
            p += 1;
        }
        if p < self.items.len() && self.items[p].endpoint() == key {
            proof {
                assert(before[p as int].endpoint() == key);
                assert forall|e: u64| holds_endpoint(self@, e) || e == key implies holds_endpoint(
                    self@,
                    e,
                ) by {
                    if e == key {
                        assert(self@[p as int].endpoint() == e);
                    }
                }
            }
            return false;
        }
        self.items.insert(p, backend);
        proof {
            let after = self@;
            assert(after =~= before.insert(p as int, backend));
            assert forall|i: int, j: int| 0 <= i < j < after.len() implies (#[trigger] after[i]).endpoint()
                < (#[trigger] after[j]).endpoint() by {
                let bi = if i < p { i } else { i - 1 };
                let bj = if j < p { j } else { j - 1 };
                if i != p {
                    assert(after[i] == before[bi]);
                }
                if j != p {
                    assert(after[j] == before[bj]);
                }
                if i == p {
                    assert(before[p as int].endpoint() >= key);
                    assert(before[p as int].endpoint() <= before[bj].endpoint());
                }
            }
            assert(!old(self).has(key)) by {
                if old(self).has(key) {
                    let k = choose|k: int| 0 <= k < before.len() && (#[trigger] before[k]).endpoint() == key;
                    if k > p {
                        assert(before[p as int].endpoint() < before[k].endpoint());
                    }
                }
            }
            assert forall|e: u64| #[trigger]
                holds_endpoint(self@, e) <==> (holds_endpoint(old(self)@, e) || e == key) by {
                if self.has(e) {
                    let k = choose|k: int| 0 <= k < after.len() && (#[trigger] after[k]).endpoint() == e;
                    if k < p {
                        assert(before[k].endpoint() == e);
                    } else if k > p {
                        assert(before[k - 1].endpoint() == e);
                    }
                }
                if old(self).has(e) {
                    let k = choose|k: int| 0 <= k < before.len() && (#[trigger] before[k]).endpoint() == e;
                    if k < p {
                        assert(after[k].endpoint() == e);
                    } else {
                        assert(after[k + 1].endpoint() == e);
                    }
                }
                if e == key {
                    assert(after[p as int].endpoint() == e);
                }
            }
        }
        true
    }

    /// The backends of this set whose endpoint is among `other`, if
    /// `within`, or is not among `other`, if not `within`.
    pub fn sift(&self, other: &BackendSet, within: bool) -> (r: BackendSet)
        requires
            self.wf(),
        ensures
            r.wf(),
            r@ == sifted(self@, other@, within),
            forall|e: u64| #[trigger]
                holds_endpoint(r@, e) <==> (holds_endpoint(self@, e) && (holds_endpoint(other@, e)
                    == within)),
    {
        let mut out: Vec<Backend> = Vec::new();
        let mut i: usize = 0;
        proof {
            assert(self@.subrange(0, 0) =~= Seq::<Backend>::empty());
        }
        while i < self.items.len()
            invariant
                i <= self.items.len(),
                out@ == sifted(self@.subrange(0, i as int), other@, within),
            decreases self.items.len() - i,
        {
            let b = self.items[i];
            proof {
                assert(self@.subrange(0, i + 1).drop_last() =~= self@.subrange(0, i as int));
                assert(self@.subrange(0, i + 1).last() == b);
            }
            if other.contains(b.endpoint()) == within {
                out.push(b);
            }
            i += 1;
        }
        proof {
            assert(self@.subrange(0, i as int) =~= self@);
            lemma_sifted(self@, other@, within);
        }
        BackendSet { items: out }
    }

    /// Whether two sets hold the same endpoints.
    pub fn same_endpoints(&self, other: &BackendSet) -> (r: bool)
        requires
            self.wf(),
            other.wf(),
        ensures
            r == (endpoints(self@) == endpoints(other@)),
            r <==> forall|e: u64| #[trigger] holds_endpoint(self@, e) <==> holds_endpoint(other@, e),
    {
        proof {
            lemma_same_members_same_endpoints(self@, other@);
        }
        if self.items.len() != other.items.len() {
            assert(endpoints(self@).len() != endpoints(other@).len());
            return false;
        }
        let mut i: usize = 0;
        while i < self.items.len()
            invariant
                i <= self.items.len(),
                self.items.len() == other.items.len(),
                self.wf(),
                other.wf(),
                forall|j: int| 0 <= j < i ==> (#[trigger] self@[j]).endpoint() == other@[j].endpoint(),
            decreases self.items.len() - i,
        {
            if self.items[i].endpoint() != other.items[i].endpoint() {
                proof {
                    assert(endpoints(self@)[i as int] != endpoints(other@)[i as int]);
                    lemma_same_members_same_endpoints(self@, other@);
                }
                return false;
            }
            i += 1;
        }
        proof {
            assert(endpoints(self@) =~= endpoints(other@));
        }
        true
    }
}

/// The backends of `items` whose endpoint is among `other`, if `within`,
/// or is not among `other`, if not `within`; in the order of `items`.
pub open spec fn sifted(items: Seq<Backend>, other: Seq<Backend>, within: bool) -> Seq<Backend>
    decreases items.len(),
{
    if items.len() == 0 {
        seq![]
    } else if holds_endpoint(other, items.last().endpoint()) == within {
        sifted(items.drop_last(), other, within).push(items.last())
    } else {
        sifted(items.drop_last(), other, within)
    }
}

/// What is sifted from an ascending list is ascending, and holds exactly
/// the endpoints of the list that pass.
pub proof fn lemma_sifted(items: Seq<Backend>, other: Seq<Backend>, within: bool)
    requires
        ascending_endpoints(items),
    ensures
        ascending_endpoints(sifted(items, other, within)),
        forall|e: u64| #[trigger]
            holds_endpoint(sifted(items, other, within), e) <==> (holds_endpoint(items, e) && (
            holds_endpoint(other, e) == within)),
        forall|k: int|
            0 <= k < sifted(items, other, within).len() ==> exists|j: int|
                0 <= j < items.len() && items[j] == #[trigger] sifted(items, other, within)[k],
    decreases items.len(),
{
    let out = sifted(items, other, within);
    if items.len() > 0 {
        let head = items.drop_last();
        let last = items.last();
        assert(ascending_endpoints(head)) by {
            assert forall|i: int, j: int| 0 <= i < j < head.len() implies (#[trigger] head[i]).endpoint()
                < (#[trigger] head[j]).endpoint() by {
                assert(head[i] == items[i]);
                assert(head[j] == items[j]);
            }
        }
        lemma_sifted(head, other, within);
        let prev = sifted(head, other, within);
        assert forall|k: int| 0 <= k < out.len() implies exists|j: int|
            0 <= j < items.len() && items[j] == #[trigger] out[k] by {
            if k < prev.len() {
                assert(out[k] == prev[k]);
                let j = choose|j: int| 0 <= j < head.len() && head[j] == prev[k];
                assert(items[j] == head[j]);
            } else {
                assert(items[items.len() - 1] == out[k]);
            }
        }
        assert forall|i: int, j: int| 0 <= i < j < out.len() implies (#[trigger] out[i]).endpoint() < (
        #[trigger] out[j]).endpoint() by {
            if j < prev.len() {
                assert(out[i] == prev[i]);
                assert(out[j] == prev[j]);
            } else {
                assert(out[i] == prev[i]);
                let m = choose|m: int| 0 <= m < head.len() && head[m] == prev[i];
                assert(items[m] == head[m]);
                assert(items[m].endpoint() < items[items.len() - 1].endpoint());
            }
        }
        assert forall|e: u64| #[trigger]
            holds_endpoint(out, e) <==> (holds_endpoint(items, e) && (holds_endpoint(other, e)
                == within)) by {
            if holds_endpoint(out, e) {
                let k = choose|k: int| 0 <= k < out.len() && (#[trigger] out[k]).endpoint() == e;
                if k < prev.len() {
                    assert(out[k] == prev[k]);
                    assert(holds_endpoint(prev, e));
                    let j = choose|j: int| 0 <= j < head.len() && (#[trigger] head[j]).endpoint() == e;
                    assert(items[j] == head[j]);
                } else {
                    assert(items[items.len() - 1].endpoint() == e);
                }
            }
            if holds_endpoint(items, e) && (holds_endpoint(other, e) == within) {
                let j = choose|j: int| 0 <= j < items.len() && (#[trigger] items[j]).endpoint() == e;
                if j < head.len() {
                    assert(head[j] == items[j]);
                    assert(holds_endpoint(head, e));
                    assert(holds_endpoint(prev, e));
                    let k = choose|k: int| 0 <= k < prev.len() && (#[trigger] prev[k]).endpoint() == e;
                    assert(out[k] == prev[k]);
                    assert(out[k].endpoint() == e);
                } else {
                    assert(out[out.len() - 1].endpoint() == e);
                }
            }
        }
    }
}

/// Two ascending lists hold the same endpoints exactly when they are the
/// same list of endpoints.
pub proof fn lemma_same_members_same_endpoints(a: Seq<Backend>, b: Seq<Backend>)
    requires
        ascending_endpoints(a),
        ascending_endpoints(b),
    ensures
        (endpoints(a) == endpoints(b)) <==> (forall|e: u64|
            #[trigger] holds_endpoint(a, e) <==> holds_endpoint(b, e)),
    decreases a.len() + b.len(),
{
    let same_members = forall|e: u64| #[trigger] holds_endpoint(a, e) <==> holds_endpoint(b, e);
    if endpoints(a) == endpoints(b) {
        assert forall|e: u64| #[trigger] holds_endpoint(a, e) <==> holds_endpoint(b, e) by {
            assert(a.len() == endpoints(a).len());
            assert(b.len() == endpoints(b).len());
            if holds_endpoint(a, e) {
                let i = choose|i: int| 0 <= i < a.len() && (#[trigger] a[i]).endpoint() == e;
                assert(endpoints(a)[i] == endpoints(b)[i]);
                assert(b[i].endpoint() == e);
            }
            if holds_endpoint(b, e) {
                let i = choose|i: int| 0 <= i < b.len() && (#[trigger] b[i]).endpoint() == e;
                assert(endpoints(a)[i] == endpoints(b)[i]);
                assert(a[i].endpoint() == e);
            }
        }
    }
    if same_members {
        if a.len() == 0 {
            if b.len() > 0 {
                assert(holds_endpoint(b, b[0].endpoint()));
                assert(holds_endpoint(a, b[0].endpoint()));
                assert(false);
            }
            assert(endpoints(a) =~= endpoints(b));
        } else if b.len() == 0 {
            assert(holds_endpoint(a, a[0].endpoint()));
            assert(holds_endpoint(b, a[0].endpoint()));
            assert(false);
        } else {
            // The greatest endpoint of either list is the last one.
            let la = a.last();
            let lb = b.last();
            assert(a[a.len() - 1].endpoint() == la.endpoint());
            assert(holds_endpoint(a, la.endpoint()));
            assert(holds_endpoint(b, la.endpoint()));
            let ib = choose|i: int| 0 <= i < b.len() && (#[trigger] b[i]).endpoint() == la.endpoint();
            assert(b[b.len() - 1].endpoint() == lb.endpoint());
            assert(holds_endpoint(b, lb.endpoint()));
            assert(holds_endpoint(a, lb.endpoint()));
            let ia = choose|i: int| 0 <= i < a.len() && (#[trigger] a[i]).endpoint() == lb.endpoint();
            assert(la.endpoint() == lb.endpoint()) by {
                if ib < b.len() - 1 {
                    assert(b[ib].endpoint() < b[b.len() - 1].endpoint());
                }
                if ia < a.len() - 1 {
                    assert(a[ia].endpoint() < a[a.len() - 1].endpoint());
                }
            }
            let a2 = a.drop_last();
            let b2 = b.drop_last();
            assert forall|e: u64| #[trigger] holds_endpoint(a2, e) <==> holds_endpoint(b2, e) by {
                if holds_endpoint(a2, e) {
                    let i = choose|i: int| 0 <= i < a2.len() && (#[trigger] a2[i]).endpoint() == e;
                    assert(a[i].endpoint() == e);
                    assert(a[i].endpoint() < a[a.len() - 1].endpoint());
                    assert(holds_endpoint(a, e));
                    assert(holds_endpoint(b, e));
                    let k = choose|k: int| 0 <= k < b.len() && (#[trigger] b[k]).endpoint() == e;
                    assert(b2[k].endpoint() == e);
                }
                if holds_endpoint(b2, e) {
                    let i = choose|i: int| 0 <= i < b2.len() && (#[trigger] b2[i]).endpoint() == e;
                    assert(b[i].endpoint() == e);
                    assert(b[i].endpoint() < b[b.len() - 1].endpoint());
                    assert(holds_endpoint(b, e));
                    assert(holds_endpoint(a, e));
                    let k = choose|k: int| 0 <= k < a.len() && (#[trigger] a[k]).endpoint() == e;
                    assert(a2[k].endpoint() == e);
                }
            }
            assert(ascending_endpoints(a2)) by {
                assert forall|i: int, j: int| 0 <= i < j < a2.len() implies (#[trigger] a2[i]).endpoint()
                    < (#[trigger] a2[j]).endpoint() by {
                    assert(a[i].endpoint() < a[j].endpoint());
                }
            }
            assert(ascending_endpoints(b2)) by {
                assert forall|i: int, j: int| 0 <= i < j < b2.len() implies (#[trigger] b2[i]).endpoint()
                    < (#[trigger] b2[j]).endpoint() by {
                    assert(b[i].endpoint() < b[j].endpoint());
                }
            }
            lemma_same_members_same_endpoints(a2, b2);
            assert(endpoints(a2) == endpoints(b2));
            assert(endpoints(a) =~= endpoints(a2).push(la.endpoint()));
            assert(endpoints(b) =~= endpoints(b2).push(lb.endpoint()));
        }
    }
}

/// The endpoint that an address and a port make.
pub open spec fn endpoint_of(ip: u32, port: u16) -> u64 {
    (ip as u64 * 65536 + port as u64) as u64
}

/// Whether one of the addresses `addrs`, taken with `port`, makes the
/// endpoint `e`.
pub open spec fn resolves_to(addrs: Seq<u32>, port: u16, e: u64) -> bool {
    exists|j: int| 0 <= j < addrs.len() && endpoint_of(#[trigger] addrs[j], port) == e
}

/// Whether `set` is what a resolution to `addrs` gives: one backend of
/// weight 1 for each distinct address, on `port`.
pub open spec fn is_resolved_set(set: Seq<Backend>, addrs: Seq<u32>, port: u16) -> bool {
    &&& ascending_endpoints(set)
    &&& forall|e: u64| #[trigger] holds_endpoint(set, e) <==> resolves_to(addrs, port, e)
    &&& forall|k: int| 0 <= k < set.len() ==> (#[trigger] set[k]).weight == 1
}

/// Builds the set of backends that a resolution gives.
pub fn resolved_backends(addrs: &Vec<u32>, port: u16) -> (set: BackendSet)
    ensures
        set.wf(),
        is_resolved_set(set@, addrs@, port),
{
    let mut set = BackendSet::new();
    let mut i: usize = 0;
    while i < addrs.len()
        invariant
            i <= addrs.len(),
            set.wf(),
            forall|e: u64| #[trigger]
                holds_endpoint(set@, e) <==> resolves_to(addrs@.subrange(0, i as int), port, e),
            forall|k: int| 0 <= k < set@.len() ==> (#[trigger] set@[k]).weight == 1,
        decreases addrs.len() - i,
    {
        let ghost before = set@;
        let backend = Backend::new(addrs[i], port);
        let added = set.insert(backend);
        proof {
            let head = addrs@.subrange(0, i as int);
            let next = addrs@.subrange(0, i + 1);
            assert forall|e: u64| #[trigger]
                holds_endpoint(set@, e) <==> resolves_to(next, port, e) by {
                assert(holds_endpoint(set@, e) <==> (holds_endpoint(before, e) || e
                    == backend.endpoint()));
                if resolves_to(next, port, e) {
                    let j = choose|j: int| 0 <= j < next.len() && endpoint_of(#[trigger] next[j], port) == e;
                    if j < i {
                        assert(head[j] == next[j]);
                    }
                }
                if resolves_to(head, port, e) {
                    let j = choose|j: int| 0 <= j < head.len() && endpoint_of(#[trigger] head[j], port) == e;
                    assert(next[j] == head[j]);
                }
                if e == backend.endpoint() {
                    assert(endpoint_of(next[i as int], port) == e);
                }
            }
        }
        i += 1;
    }
    proof {
        assert(addrs@.subrange(0, i as int) =~= addrs@);
    }
    set
}

/// What the discovery loop does after a step.
#[derive(Debug, Clone, Copy, PartialEq, Eq, Structural)]
pub enum LoopNext {
    /// Nobody holds the handle any more: the loop ends.
    Stop,
    /// The resolution failed: try again after `RETRY_BACKOFF_SECS`.
    RetryAfterBackoff,
    /// The resolution is good until its records expire: sleep until then.
    SleepUntilExpiry,
}

/// For how many seconds the loop waits after a failed resolution.
pub const RETRY_BACKOFF_SECS: u64 = 1;

/// What one successful resolution asks of the caller.
#[derive(Debug, Clone, Copy, PartialEq, Eq, Structural)]
pub struct ResolveOutcome {
    /// The set of backends changed and is to be published.
    pub changed: bool,
    /// Both load-balancer views are to be brought up to date.
    pub update_balancers: bool,
    pub next: LoopNext,
}

/// The state of the loop that keeps the backends of one host current.
#[derive(Debug)]
pub struct DiscoveryLoop {
    port: u16,
    backends: BackendSet,
    ready: bool,
}

impl DiscoveryLoop {
    /// The port on which every backend of this host listens.
    pub closed spec fn port(&self) -> u16 {
        self.port
    }

    /// The backends as they were last published.
    pub closed spec fn backends(&self) -> Seq<Backend> {
        self.backends@
    }

    /// Whether a resolution has succeeded while somebody held the handle.
    pub closed spec fn ready_spec(&self) -> bool {
        self.ready
    }

    /// The published set is a set, and each of its backends has weight 1.
    pub closed spec fn wf(&self) -> bool {
        &&& self.backends.wf()
        &&& forall|k: int| 0 <= k < self.backends@.len() ==> (#[trigger] self.backends@[k]).weight == 1
    }

    /// What `wf` says of the published backends: their endpoints ascend
    /// strictly, and each has weight 1.
    pub proof fn lemma_published(&self)
        requires
            self.wf(),
        ensures
            ascending_endpoints(self.backends()),
            forall|k: int|
                0 <= k < self.backends().len() ==> (#[trigger] self.backends()[k]).weight == 1,
    {
    }

    /// The loop before its first resolution: no backends, not ready.
    pub fn new(port: u16) -> (l: DiscoveryLoop)
        ensures
            l.wf(),
            l.port() == port,
            l.backends() == Seq::<Backend>::empty(),
            !l.ready_spec(),
    {
        DiscoveryLoop { port, backends: BackendSet::new(), ready: false }
    }

    /// Whether the handle is ready. Once ready, a handle stays ready.
    #[verifier::when_used_as_spec(ready_spec)]
    pub fn ready(&self) -> (r: bool)
        ensures
            r == self.ready_spec(),
    {
        self.ready
    }

    /// The backends as they were last published.
    pub fn current(&self) -> (b: &BackendSet)
        ensures
            b@ == self.backends(),
            self.wf() ==> b.wf() && forall|k: int|
                0 <= k < b@.len() ==> (#[trigger] b@[k]).weight == 1,
    {
        &self.backends
    }

    /// Takes in a successful resolution to the addresses `addrs`.
    ///
    /// The set is published only if it differs from the one published
    /// before; the load balancers are brought up to date only then, and
    /// only if somebody still holds the handle. If nobody does, the loop
    /// stops and readiness stays as it was; else the handle is ready from
    /// now on and the loop sleeps until the records expire.
    pub fn on_resolved(&mut self, addrs: &Vec<u32>, has_consumers: bool) -> (out: ResolveOutcome)
        requires
            old(self).wf(),
        ensures
            final(self).wf(),
            final(self).port() == old(self).port(),
            out.changed == (endpoints(old(self).backends()) != endpoints(final(self).backends())),
            out.changed ==> is_resolved_set(final(self).backends(), addrs@, old(self).port()),
            !out.changed ==> final(self).backends() == old(self).backends(),
            forall|e: u64| #[trigger]
                holds_endpoint(final(self).backends(), e) <==> resolves_to(
                    addrs@,
                    old(self).port(),
                    e,
                ),
            forall|k: int|
                0 <= k < final(self).backends().len() ==> (#[trigger] final(self).backends()[k]).weight == 1,
            out.update_balancers == (out.changed && has_consumers),
            out.next == if has_consumers {
                LoopNext::SleepUntilExpiry
            } else {
                LoopNext::Stop
            },
            final(self).ready() == (old(self).ready() || has_consumers),
    {
        let found = resolved_backends(addrs, self.port);
        let same = self.backends.same_endpoints(&found);
        if !same {
            self.backends = found;
        }
        if has_consumers {
            self.ready = true;
        }
        ResolveOutcome {
            changed: !same,
            update_balancers: !same && has_consumers,
            next: if has_consumers {
                LoopNext::SleepUntilExpiry
            } else {
                LoopNext::Stop
            },
        }
    }

    /// Takes in a failed resolution: nothing is published and readiness
    /// stays as it was. The loop stops if nobody holds the handle, else it
    /// tries again after the backoff.
    pub fn on_error(&self, has_consumers: bool) -> (next: LoopNext)
        ensures
            next == if has_consumers {
                LoopNext::RetryAfterBackoff
            } else {
                LoopNext::Stop
            },
    {
        if has_consumers {
            LoopNext::RetryAfterBackoff
        } else {
            LoopNext::Stop
        }
    }
}

/// A handle to the backends of one host: what a consumer holds.
#[derive(Debug)]
pub struct ServiceBackendsHandle {
    /// The number under which the registry knows the handle.
    pub id: u64,
    pub host: String,
    pub port: u16,
}

/// What the registry keeps of a handle that somebody holds.
#[derive(Debug)]
pub struct HandleEntry {
    pub host: String,
    pub port: u16,
    pub id: u64,
}

/// The number of the handle that `entries` keeps for a host and a port.
pub open spec fn live_id(entries: Seq<HandleEntry>, host: Seq<char>, port: u16) -> Option<u64>
    decreases entries.len(),
{
    if entries.len() == 0 {
        None
    } else if entries[0].host@ == host && entries[0].port == port {
        Some(entries[0].id)
    } else {
        live_id(entries.drop_first(), host, port)
    }
}

/// The registry of the handles that are held: at most one for each host
/// and port, so that all consumers of one host share one handle and one
/// discovery loop.
#[derive(Debug)]
pub struct Handle {
    entries: Vec<HandleEntry>,
    next_id: u64,
}

impl Handle {
    /// The handles that are held.
    pub closed spec fn entries(&self) -> Seq<HandleEntry> {
        self.entries@
    }

    /// The number that the next new handle gets.
    pub closed spec fn next_id(&self) -> u64 {
        self.next_id
    }

    /// No two handles are for one host and port or bear one number, and
    /// every handle's number is below the next one.
    pub open spec fn wf(&self) -> bool {
        &&& forall|i: int, j: int|
            0 <= i < j < self.entries().len() ==> !((#[trigger] self.entries()[i]).host@ == (
            #[trigger] self.entries()[j]).host@ && self.entries()[i].port
                == self.entries()[j].port)
        &&& forall|i: int, j: int|
            0 <= i < j < self.entries().len() ==> (#[trigger] self.entries()[i]).id != (
            #[trigger] self.entries()[j]).id
        &&& forall|i: int|
            0 <= i < self.entries().len() ==> (#[trigger] self.entries()[i]).id < self.next_id()
    }

    /// A registry that holds no handle.
    pub fn new() -> (h: Handle)
        ensures
            h.wf(),
            h.entries() == Seq::<HandleEntry>::empty(),
            h.next_id() == 0,
    {
        Handle { entries: Vec::new(), next_id: 0 }
    }

    /// The number that the next new handle gets.
    pub fn next_handle_id(&self) -> (id: u64)
        ensures
            id == self.next_id(),
    {
        self.next_id
    }

    /// Finds the handle that is held for a host and a port.
    pub fn find(&self, hostname: &str, port: u16) -> (r: Option<usize>)
        ensures
            match r {
                Some(i) => i < self.entries().len() && self.entries()[i as int].host@ == hostname@
                    && self.entries()[i as int].port == port && live_id(
                    self.entries(),
                    hostname@,
                    port,
                ) == Some(self.entries()[i as int].id),
                None => live_id(self.entries(), hostname@, port) is None,
            },
    {
        let mut i: usize = 0;
        proof {
            assert(self.entries@.subrange(0, self.entries@.len() as int) =~= self.entries@);
        }
        while i < self.entries.len()
            invariant
                i <= self.entries.len(),
                live_id(self.entries@, hostname@, port) == live_id(
                    self.entries@.subrange(i as int, self.entries@.len() as int),
                    hostname@,
                    port,
                ),
            decreases self.entries.len() - i,
        {
            let ghost rest = self.entries@.subrange(i as int, self.entries@.len() as int);
            proof {
                assert(rest[0] == self.entries@[i as int]);
                assert(rest.drop_first() =~= self.entries@.subrange(
                    i + 1,
                    self.entries@.len() as int,
                ));
            }
            if self.entries[i].port == port && str_eq(self.entries[i].host.as_str(), hostname) {
                return Some(i);
            }
            i += 1;
        }
        None
    }

    /// The handle to the backends of `hostname` on `port`.
    ///
    /// Where a handle for this host and port is held, it is handed out
    /// again: the same number, and no new discovery loop. Else a new handle
    /// is made, with the next free number, and `started` tells the caller
    /// to start its discovery loop. The call does not wait for a
    /// resolution.
    pub fn backends_for_hostname(&mut self, hostname: String, port: u16) -> (r: (
        ServiceBackendsHandle,
        bool,
    ))
        requires
            old(self).wf(),
            old(self).next_id() < u64::MAX,
        ensures
            final(self).wf(),
            r.0.host@ == hostname@,
            r.0.port == port,
            live_id(final(self).entries(), hostname@, port) == Some(r.0.id),
            r.1 == (live_id(old(self).entries(), hostname@, port) is None),
            match live_id(old(self).entries(), hostname@, port) {
                Some(id) => r.0.id == id && final(self).entries() == old(self).entries()
                    && final(self).next_id() == old(self).next_id(),
                None => r.0.id == old(self).next_id() && final(self).next_id() == old(self).next_id() + 1 && final(self).entries().len() == old(self).entries().len() + 1
                    && final(self).entries().drop_last() == old(self).entries(),
            },
    {
        match self.find(hostname.as_str(), port) {
            Some(i) => {
                let id = self.entries[i].id;
                (ServiceBackendsHandle { id, host: hostname, port }, false)
            },
            None => {
                let id = self.next_id;
                let ghost before = self.entries@;
                let entry = HandleEntry { host: hostname.clone(), port, id };
                self.entries.push(entry);
                self.next_id = id + 1;
                proof {
                    assert(self.entries@.drop_last() =~= before);
                    lemma_live_id_push(before, entry, hostname@, port);
                    assert forall|i: int, j: int| 0 <= i < j < self.entries().len() implies !((
                    #[trigger] self.entries()[i]).host@ == (#[trigger] self.entries()[j]).host@
                        && self.entries()[i].port == self.entries()[j].port) by {
                        if j == before.len() {
                            lemma_live_id_none(before, hostname@, port, i);
                        } else {
                            assert(before[i] == self.entries()[i]);
                            assert(before[j] == self.entries()[j]);
                        }
                    }
                    assert forall|i: int| 0 <= i < self.entries().len() implies (
                    #[trigger] self.entries()[i]).id < self.next_id() by {
                        if i < before.len() {
                            assert(before[i] == self.entries()[i]);
                        }
                    }
                    assert forall|i: int, j: int| 0 <= i < j < self.entries().len() implies (
                    #[trigger] self.entries()[i]).id != (#[trigger] self.entries()[j]).id by {
                        assert(before[i] == self.entries()[i]);
                        if j < before.len() {
                            assert(before[j] == self.entries()[j]);
                        }
                    }
                }
                (ServiceBackendsHandle { id, host: hostname, port }, true)
            },
        }
    }

    /// Whether somebody holds the handle of this number: the discovery loop
    /// of a handle that nobody holds stops.
    pub fn has_consumers(&self, id: u64) -> (r: bool)
        ensures
            r == exists|i: int| 0 <= i < self.entries().len() && (#[trigger] self.entries()[i]).id == id,
    {
        self.position_of(id).is_some()
    }

    /// The position of the handle of this number.
    pub fn position_of(&self, id: u64) -> (r: Option<usize>)
        ensures
            match r {
                Some(i) => i < self.entries().len() && self.entries()[i as int].id == id,
                None => forall|j: int|
                    0 <= j < self.entries().len() ==> (#[trigger] self.entries()[j]).id != id,
            },
    {
        let mut i: usize = 0;
        while i < self.entries.len()
            invariant
                i <= self.entries.len(),
                forall|j: int| 0 <= j < i ==> (#[trigger] self.entries@[j]).id != id,
            decreases self.entries.len() - i,
        {
            if self.entries[i].id == id {
                return Some(i);
            }
            i += 1;
        }
        None
    }

    /// Tells the registry that the last holder of the handle `id` let it
    /// go. The handle is forgotten; the next consumer of its host gets a
    /// new one.
    pub fn handle_dropped(&mut self, id: u64)
        requires
            old(self).wf(),
        ensures
            final(self).wf(),
            final(self).next_id() == old(self).next_id(),
            forall|i: int|
                0 <= i < final(self).entries().len() ==> (#[trigger] final(self).entries()[i]).id
                    != id,
            forall|host: Seq<char>, port: u16| #[trigger]
                live_id(final(self).entries(), host, port) == (if live_id(
                    old(self).entries(),
                    host,
                    port,
                ) == Some(id) {
                    None
                } else {
                    live_id(old(self).entries(), host, port)
                }),
    {
        let ghost before = self.entries@;
        let found = self.position_of(id);
        if let Some(i) = found {
            let removed = self.entries.remove(i);
            proof {
                let k = i as int;
                let after = self.entries@;
                assert(after =~= before.remove(k));
                lemma_remove_entry(before, k);
                assert forall|j: int| 0 <= j < after.len() implies (#[trigger] after[j]).id != id by {
                    let bj = if j < k { j } else { j + 1 };
                    assert(after[j] == before[bj]);
                }
                assert forall|j: int, l: int| 0 <= j < l < after.len() implies (#[trigger] after[j]).id
                    != (#[trigger] after[l]).id by {
                    let bj = if j < k { j } else { j + 1 };
                    let bl = if l < k { l } else { l + 1 };
                    assert(after[j] == before[bj]);
                    assert(after[l] == before[bl]);
                }
                assert forall|j: int| 0 <= j < after.len() implies (#[trigger] after[j]).id
                    < self.next_id() by {
                    let bj = if j < k { j } else { j + 1 };
                    assert(after[j] == before[bj]);
                }
                assert forall|host: Seq<char>, port: u16| #[trigger]
                    live_id(after, host, port) == (if live_id(before, host, port) == Some(id) {
                        None
                    } else {
                        live_id(before, host, port)
                    }) by {
                    if before[k].host@ == host && before[k].port == port {
                        lemma_live_id_finds(before, k);
                    } else if live_id(before, host, port) == Some(id) {
                        lemma_live_id_is_entry(before, host, port);
                        let m = choose|m: int|
                            0 <= m < before.len() && (#[trigger] before[m]).id == id
                                && before[m].host@ == host && before[m].port == port;
                        if m < k {
                            assert(before[m].id != before[k].id);
                        } else if m > k {
                            assert(before[k].id != before[m].id);
                        }
                    }
                }
            }
        } else {
            proof {
                assert forall|host: Seq<char>, port: u16| #[trigger]
                    live_id(before, host, port) != Some(id) by {
                    lemma_live_id_is_entry(before, host, port);
                }
            }
        }
    }
}

/// What `live_id` finds is the number of an entry for that host and port.
pub proof fn lemma_live_id_is_entry(entries: Seq<HandleEntry>, host: Seq<char>, port: u16)
    ensures
        live_id(entries, host, port) matches Some(id) ==> exists|i: int|
            0 <= i < entries.len() && (#[trigger] entries[i]).id == id && entries[i].host@ == host
                && entries[i].port == port,
    decreases entries.len(),
{
    if entries.len() > 0 && !(entries[0].host@ == host && entries[0].port == port) {
        lemma_live_id_is_entry(entries.drop_first(), host, port);
        if live_id(entries, host, port) is Some {
            let id = live_id(entries, host, port)->0;
            let i = choose|i: int|
                0 <= i < entries.drop_first().len() && (#[trigger] entries.drop_first()[i]).id == id
                    && entries.drop_first()[i].host@ == host && entries.drop_first()[i].port
                    == port;
            assert(entries[i + 1].id == id);
        }
    } else if entries.len() > 0 {
        assert(entries[0].id == live_id(entries, host, port)->0);
    }
}

/// Where no two entries are for one host and port, the handle found for an
/// entry's host and port is that entry's.
pub proof fn lemma_live_id_finds(entries: Seq<HandleEntry>, k: int)
    requires
        0 <= k < entries.len(),
        forall|i: int, j: int|
            0 <= i < j < entries.len() ==> !((#[trigger] entries[i]).host@ == (
            #[trigger] entries[j]).host@ && entries[i].port == entries[j].port),
    ensures
        live_id(entries, entries[k].host@, entries[k].port) == Some(entries[k].id),
    decreases entries.len(),
{
    if k > 0 {
        let rest = entries.drop_first();
        assert forall|i: int, j: int| 0 <= i < j < rest.len() implies !((#[trigger] rest[i]).host@
            == (#[trigger] rest[j]).host@ && rest[i].port == rest[j].port) by {
            assert(rest[i] == entries[i + 1]);
            assert(rest[j] == entries[j + 1]);
        }
        assert(rest[k - 1] == entries[k]);
        lemma_live_id_finds(rest, k - 1);
        assert(!(entries[0].host@ == entries[k].host@ && entries[0].port == entries[k].port));
    }
}

/// Where no handle is held for a host and port, no entry is for them.
pub proof fn lemma_live_id_none(entries: Seq<HandleEntry>, host: Seq<char>, port: u16, i: int)
    requires
        live_id(entries, host, port) is None,
        0 <= i < entries.len(),
    ensures
        !(entries[i].host@ == host && entries[i].port == port),
    decreases entries.len(),
{
    if i > 0 {
        lemma_live_id_none(entries.drop_first(), host, port, i - 1);
    }
}

/// A new entry behind the others is found for its own host and port where
/// none was held, and changes nothing for any other.
pub proof fn lemma_live_id_push(
    entries: Seq<HandleEntry>,
    entry: HandleEntry,
    host: Seq<char>,
    port: u16,
)
    ensures
        live_id(entries.push(entry), host, port) == (match live_id(entries, host, port) {
            Some(id) => Some(id),
            None => if entry.host@ == host && entry.port == port {
                Some(entry.id)
            } else {
                None
            },
        }),
    decreases entries.len(),
{
    if entries.len() == 0 {
        assert(entries.push(entry).drop_first() =~= entries);
    } else {
        assert(entries.push(entry).drop_first() =~= entries.drop_first().push(entry));
        lemma_live_id_push(entries.drop_first(), entry, host, port);
    }
}

/// Where no two entries are for one host and port, taking entry `k` out
/// leaves every other host and port with the handle it had.
pub proof fn lemma_remove_entry(entries: Seq<HandleEntry>, k: int)
    requires
        0 <= k < entries.len(),
        forall|i: int, j: int|
            0 <= i < j < entries.len() ==> !((#[trigger] entries[i]).host@ == (
            #[trigger] entries[j]).host@ && entries[i].port == entries[j].port),
    ensures
        forall|host: Seq<char>, port: u16| #[trigger]
            live_id(entries.remove(k), host, port) == (if entries[k].host@ == host
                && entries[k].port == port {
                None
            } else {
                live_id(entries, host, port)
            }),
        forall|i: int, j: int|
            0 <= i < j < entries.remove(k).len() ==> !((#[trigger] entries.remove(k)[i]).host@
                == (#[trigger] entries.remove(k)[j]).host@ && entries.remove(k)[i].port
                == entries.remove(k)[j].port),
    decreases entries.len(),
{
    let after = entries.remove(k);
    assert forall|i: int, j: int| 0 <= i < j < after.len() implies !((#[trigger] after[i]).host@
        == (#[trigger] after[j]).host@ && after[i].port == after[j].port) by {
        let bi = if i < k { i } else { i + 1 };
        let bj = if j < k { j } else { j + 1 };
        assert(after[i] == entries[bi]);
        assert(after[j] == entries[bj]);
    }
    assert forall|host: Seq<char>, port: u16| #[trigger]
        live_id(after, host, port) == (if entries[k].host@ == host && entries[k].port == port {
            None
        } else {
            live_id(entries, host, port)
        }) by {
        lemma_remove_entry_at(entries, k, host, port);
    }
}

proof fn lemma_remove_entry_at(entries: Seq<HandleEntry>, k: int, host: Seq<char>, port: u16)
    requires
        0 <= k < entries.len(),
        forall|i: int, j: int|
            0 <= i < j < entries.len() ==> !((#[trigger] entries[i]).host@ == (
            #[trigger] entries[j]).host@ && entries[i].port == entries[j].port),
    ensures
        live_id(entries.remove(k), host, port) == (if entries[k].host@ == host && entries[k].port
            == port {
            None
        } else {
            live_id(entries, host, port)
        }),
    decreases entries.len(),
{
    let after = entries.remove(k);
    let rest = entries.drop_first();
    assert forall|i: int, j: int| 0 <= i < j < rest.len() implies !((#[trigger] rest[i]).host@ == (
    #[trigger] rest[j]).host@ && rest[i].port == rest[j].port) by {
        assert(rest[i] == entries[i + 1]);
        assert(rest[j] == entries[j + 1]);
    }
    if k == 0 {
        assert(after =~= rest);
        if entries[0].host@ == host && entries[0].port == port {
            if live_id(rest, host, port) is Some {
                lemma_live_id_is_entry(rest, host, port);
                let id = live_id(rest, host, port)->0;
                let i = choose|i: int|
                    0 <= i < rest.len() && (#[trigger] rest[i]).id == id && rest[i].host@ == host
                        && rest[i].port == port;
                assert(rest[i] == entries[i + 1]);
                assert(entries[0].host@ == entries[i + 1].host@);
            }
        }
    } else {
        assert(after[0] == entries[0]);
        assert(after.drop_first() =~= rest.remove(k - 1));
        assert(rest[k - 1] == entries[k]);
        lemma_remove_entry_at(rest, k - 1, host, port);
        if entries[0].host@ == host && entries[0].port == port {
            assert(!(entries[0].host@ == entries[k].host@ && entries[0].port == entries[k].port));
        }
    }
}

} // verus!
