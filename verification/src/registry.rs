//! The registry: it takes in the changes of service resources and keeps the
//! routing table in step with them.
//!
//! More than one resource may claim one gRPC service. The registry then
//! picks the claimant whose namespace and name come first, so that every
//! replica of the proxy picks the same one. Every update of a service gets
//! a generation of its own; an update that arrives late, such as a
//! descriptor fetch that took long, is dropped where a newer one has won.

use vstd::prelude::*;
use vstd::string::*;
use vstd::utf8::*;
use std::sync::Arc;
use crate::crd::{DescriptorSetSource, GrcacheService, ObjectRef, Upstream};
use crate::discovery::{live_id, Handle, ServiceBackendsHandle};
use crate::resource_change::ResourceChange;
use crate::qualified_service::{names_service, QualifiedService};
use crate::service::{
    built_from, invalid_ttls, reports_ttls, service_position, DescriptorSet, ServiceSpec,
    ValidationError,
};
use crate::service_store::{updated_if_newer, ServiceConfigInner, ServiceData, UpdateOutcome};
use crate::text::{
    bytes_less, bytes_lt, lemma_bytes_lt_total, lemma_bytes_lt_transitive, str_eq,
};

verus! {

/// Whether the namespace `a` comes before the namespace `b`: no namespace
/// comes before any, and two namespaces are ordered as their bytes are.
pub open spec fn namespace_before(a: Option<String>, b: Option<String>) -> bool {
    match (a, b) {
        (None, Some(_)) => true,
        (Some(x), Some(y)) => bytes_lt(encode_utf8(x@), encode_utf8(y@)),
        _ => false,
    }
}

/// Whether two namespaces are the same.
pub open spec fn same_namespace(a: Option<String>, b: Option<String>) -> bool {
    match (a, b) {
        (None, None) => true,
        (Some(x), Some(y)) => x@ == y@,
        _ => false,
    }
}

/// Whether the resource `a` comes before the resource `b`: by namespace
/// first, by name second.
pub open spec fn ref_before(a: GrcacheService, b: GrcacheService) -> bool {
    namespace_before(a.namespace, b.namespace) || (same_namespace(a.namespace, b.namespace)
        && bytes_lt(encode_utf8(a.name@), encode_utf8(b.name@)))
}

/// Whether two resources go by one namespace and name.
pub open spec fn same_ref(a: GrcacheService, b: GrcacheService) -> bool {
    same_namespace(a.namespace, b.namespace) && a.name@ == b.name@
}

/// Two texts with the same bytes are the same text.
pub proof fn lemma_text_of_bytes(a: Seq<char>, b: Seq<char>)
    ensures
        encode_utf8(a) == encode_utf8(b) <==> a == b,
{
    encode_utf8_decode_utf8(a);
    encode_utf8_decode_utf8(b);
}

/// Of two resources, one comes before the other or both go by one name;
/// never two of these at once.
pub proof fn lemma_ref_order_total(a: GrcacheService, b: GrcacheService)
    ensures
        ref_before(a, b) || ref_before(b, a) || same_ref(a, b),
        !(ref_before(a, b) && ref_before(b, a)),
        same_ref(a, b) ==> !ref_before(a, b) && !ref_before(b, a),
{
    lemma_text_of_bytes(a.name@, b.name@);
    lemma_bytes_lt_total(encode_utf8(a.name@), encode_utf8(b.name@));
    match (a.namespace, b.namespace) {
        (Some(x), Some(y)) => {
            lemma_text_of_bytes(x@, y@);
            lemma_bytes_lt_total(encode_utf8(x@), encode_utf8(y@));
        },
        _ => {},
    }
}

/// The order of resources is transitive.
pub proof fn lemma_ref_order_transitive(a: GrcacheService, b: GrcacheService, c: GrcacheService)
    requires
        ref_before(a, b),
        ref_before(b, c),
    ensures
        ref_before(a, c),
{
    lemma_text_of_bytes(a.name@, b.name@);
    lemma_text_of_bytes(b.name@, c.name@);
    if bytes_lt(encode_utf8(a.name@), encode_utf8(b.name@)) && bytes_lt(
        encode_utf8(b.name@),
        encode_utf8(c.name@),
    ) {
        lemma_bytes_lt_transitive(
            encode_utf8(a.name@),
            encode_utf8(b.name@),
            encode_utf8(c.name@),
        );
    }
    match (a.namespace, b.namespace, c.namespace) {
        (Some(x), Some(y), Some(z)) => {
            lemma_text_of_bytes(x@, y@);
            lemma_text_of_bytes(y@, z@);
            lemma_bytes_lt_total(encode_utf8(x@), encode_utf8(y@));
            lemma_bytes_lt_total(encode_utf8(y@), encode_utf8(z@));
            if bytes_lt(encode_utf8(x@), encode_utf8(y@)) && bytes_lt(
                encode_utf8(y@),
                encode_utf8(z@),
            ) {
                lemma_bytes_lt_transitive(encode_utf8(x@), encode_utf8(y@), encode_utf8(z@));
            }
        },
        _ => {},
    }
}

/// Whether the resource `a` comes before the resource `b`.
pub fn resource_before(a: &GrcacheService, b: &GrcacheService) -> (r: bool)
    ensures
        r == ref_before(*a, *b),
{
    proof {
        lemma_text_of_bytes(a.name@, b.name@);
    }
    match (&a.namespace, &b.namespace) {
        (None, Some(_)) => true,
        (Some(_), None) => false,
        (None, None) => bytes_less(a.name.as_str().as_bytes(), b.name.as_str().as_bytes()),
        (Some(x), Some(y)) => {
            proof {
                lemma_text_of_bytes(x@, y@);
                lemma_bytes_lt_total(encode_utf8(x@), encode_utf8(y@));
            }
            let xb = x.as_str().as_bytes();
            let yb = y.as_str().as_bytes();
            if bytes_less(xb, yb) {
                true
            } else if bytes_less(yb, xb) {
                false
            } else {
                bytes_less(a.name.as_str().as_bytes(), b.name.as_str().as_bytes())
            }
        },
    }
}

/// Whether the resource goes by the namespace and name of `r`.
pub fn resource_is_named(a: &GrcacheService, r: &ObjectRef) -> (b: bool)
    ensures
        b == a.is_named(*r),
{
    let same_ns = match (&a.namespace, &r.namespace) {
        (None, None) => true,
        (Some(x), Some(y)) => str_eq(x.as_str(), y.as_str()),
        _ => false,
    };
    same_ns && str_eq(a.name.as_str(), r.name.as_str())
}

/// The position in `raw` of the resource that speaks for the service `s`:
/// among the resources that claim `s`, the one that comes first. `-1`
/// where no resource claims `s`.
pub open spec fn chosen_index(raw: Seq<GrcacheService>, s: Seq<char>) -> int
    decreases raw.len(),
{
    if raw.len() == 0 {
        -1
    } else {
        let prev = chosen_index(raw.drop_last(), s);
        if raw.last().spec.service_name@ != s {
            prev
        } else if prev < 0 || ref_before(raw.last(), raw[prev]) {
            raw.len() - 1
        } else {
            prev
        }
    }
}

/// The resource that speaks for the service `s`, if any claims it.
pub open spec fn chosen(raw: Seq<GrcacheService>, s: Seq<char>) -> Option<GrcacheService> {
    if chosen_index(raw, s) >= 0 {
        Some(raw[chosen_index(raw, s)])
    } else {
        None
    }
}

/// How many resources of `raw` claim the service `s`.
pub open spec fn claimants(raw: Seq<GrcacheService>, s: Seq<char>) -> nat
    decreases raw.len(),
{
    if raw.len() == 0 {
        0
    } else if raw.last().spec.service_name@ == s {
        claimants(raw.drop_last(), s) + 1
    } else {
        claimants(raw.drop_last(), s)
    }
}

/// Whether no two resources of `raw` go by one namespace and name.
pub open spec fn distinct_refs(raw: Seq<GrcacheService>) -> bool {
    forall|i: int, j: int| 0 <= i < j < raw.len() ==> !same_ref(#[trigger] raw[i], #[trigger] raw[j])
}

/// The chosen resource claims the service and comes before every other
/// claimant: it is the least by namespace and name. Where nothing is
/// chosen, nothing claims the service.
pub proof fn lemma_chosen_is_least(raw: Seq<GrcacheService>, s: Seq<char>)
    requires
        distinct_refs(raw),
    ensures
        -1 <= chosen_index(raw, s) < raw.len(),
        chosen_index(raw, s) >= 0 ==> raw[chosen_index(raw, s)].spec.service_name@ == s,
        forall|i: int|
            0 <= i < raw.len() && (#[trigger] raw[i]).spec.service_name@ == s ==> chosen_index(
                raw,
                s,
            ) >= 0 && (i == chosen_index(raw, s) || ref_before(raw[chosen_index(raw, s)], raw[i])),
    decreases raw.len(),
{
    if raw.len() > 0 {
        let head = raw.drop_last();
        assert(distinct_refs(head)) by {
            assert forall|i: int, j: int| 0 <= i < j < head.len() implies !same_ref(
                #[trigger] head[i],
                #[trigger] head[j],
            ) by {
                assert(head[i] == raw[i]);
                assert(head[j] == raw[j]);
            }
        }
        lemma_chosen_is_least(head, s);
        let prev = chosen_index(head, s);
        let c = chosen_index(raw, s);
        assert forall|i: int|
            0 <= i < raw.len() && (#[trigger] raw[i]).spec.service_name@ == s implies c >= 0 && (i
                == c || ref_before(raw[c], raw[i])) by {
            let last = raw.last();
            if i < raw.len() - 1 {
                assert(head[i] == raw[i]);
                assert(prev >= 0);
                assert(head[prev] == raw[prev]);
                if last.spec.service_name@ == s && ref_before(last, raw[prev]) {
                    if i != prev {
                        lemma_ref_order_transitive(last, raw[prev], raw[i]);
                    }
                }
            } else {
                if prev >= 0 {
                    assert(head[prev] == raw[prev]);
                    lemma_ref_order_total(last, raw[prev]);
                    assert(!same_ref(raw[prev], raw[raw.len() - 1]));
                    assert(same_ref(last, raw[prev]) == same_ref(raw[prev], last));
                }
            }
        }
        if prev >= 0 {
            assert(head[prev] == raw[prev]);
        }
    }
}

/// Which resource speaks for a service does not depend on the order in
/// which the resources came: two lists of the same resources, each
/// without a namespace and name that stands twice, choose the same
/// resource for every service.
pub proof fn lemma_chosen_is_order_independent(
    raw1: Seq<GrcacheService>,
    raw2: Seq<GrcacheService>,
    s: Seq<char>,
)
    requires
        distinct_refs(raw1),
        distinct_refs(raw2),
        forall|r: GrcacheService| raw1.contains(r) <==> raw2.contains(r),
    ensures
        chosen(raw1, s) == chosen(raw2, s),
        update_kind(raw1, s) == update_kind(raw2, s),
{
    lemma_chosen_is_least(raw1, s);
    lemma_chosen_is_least(raw2, s);
    let c1 = chosen_index(raw1, s);
    let c2 = chosen_index(raw2, s);
    if c1 >= 0 {
        let a = raw1[c1];
        assert(raw1.contains(a));
        assert(raw2.contains(a));
        let j = choose|j: int| 0 <= j < raw2.len() && raw2[j] == a;
        assert(raw2[j].spec.service_name@ == s);
        assert(c2 >= 0);
        let b = raw2[c2];
        assert(raw2.contains(b));
        assert(raw1.contains(b));
        let i = choose|i: int| 0 <= i < raw1.len() && raw1[i] == b;
        assert(raw1[i].spec.service_name@ == s);
        if j != c2 && i != c1 {
            assert(ref_before(b, a));
            assert(ref_before(a, b));
            lemma_ref_order_total(a, b);
        }
        assert(a == b);
    } else if c2 >= 0 {
        let b = raw2[c2];
        assert(raw2.contains(b));
        assert(raw1.contains(b));
        let i = choose|i: int| 0 <= i < raw1.len() && raw1[i] == b;
        assert(raw1[i].spec.service_name@ == s);
    }
}

/// Taking out a resource that does not claim `s` leaves the resource that
/// speaks for `s` as it was.
pub proof fn lemma_chosen_after_remove(raw: Seq<GrcacheService>, k: int, s: Seq<char>)
    requires
        0 <= k < raw.len(),
        raw[k].spec.service_name@ != s,
    ensures
        chosen(raw.remove(k), s) == chosen(raw, s),
        claimants(raw.remove(k), s) == claimants(raw, s),
    decreases raw.len(),
{
    let after = raw.remove(k);
    let head = raw.drop_last();
    lemma_chosen_index_bound(head, s);
    let p = chosen_index(head, s);
    if p >= 0 {
        assert(head[p] == raw[p]);
    }
    if k == raw.len() - 1 {
        assert(after =~= head);
        assert(chosen_index(raw, s) == p);
    } else {
        let short = head.remove(k);
        assert(after.drop_last() =~= short);
        assert(after.last() == raw.last());
        assert(head[k] == raw[k]);
        lemma_chosen_after_remove(head, k, s);
        lemma_chosen_index_bound(short, s);
        let q = chosen_index(short, s);
        if q >= 0 {
            assert(short[q] == after[q]);
            assert(chosen(short, s) == Some(short[q]));
            assert(chosen(head, s) == Some(head[p]));
            assert(after[q] == raw[p]);
        }
        assert((q >= 0) == (p >= 0));
        if raw.last().spec.service_name@ == s {
            if p < 0 || ref_before(raw.last(), raw[p]) {
                assert(chosen_index(raw, s) == raw.len() - 1);
                assert(chosen_index(after, s) == after.len() - 1);
            } else {
                assert(chosen_index(raw, s) == p);
                assert(chosen_index(after, s) == q);
            }
        } else {
            assert(chosen_index(raw, s) == p);
            assert(chosen_index(after, s) == q);
        }
    }
}

/// The chosen position is a position of `raw`, or `-1`.
pub proof fn lemma_chosen_index_bound(raw: Seq<GrcacheService>, s: Seq<char>)
    ensures
        -1 <= chosen_index(raw, s) < raw.len(),
        chosen_index(raw, s) >= 0 ==> raw[chosen_index(raw, s)].spec.service_name@ == s,
        chosen_index(raw, s) >= 0 <==> claimants(raw, s) > 0,
    decreases raw.len(),
{
    if raw.len() > 0 {
        lemma_chosen_index_bound(raw.drop_last(), s);
        let prev = chosen_index(raw.drop_last(), s);
        if prev >= 0 {
            assert(raw.drop_last()[prev] == raw[prev]);
        }
    }
}

/// Adding a resource that does not claim `s` leaves the resource that
/// speaks for `s` as it was.
pub proof fn lemma_chosen_after_push(raw: Seq<GrcacheService>, added: GrcacheService, s: Seq<char>)
    requires
        added.spec.service_name@ != s,
    ensures
        chosen(raw.push(added), s) == chosen(raw, s),
        claimants(raw.push(added), s) == claimants(raw, s),
{
    assert(raw.push(added).drop_last() =~= raw);
    lemma_chosen_index_bound(raw, s);
    let p = chosen_index(raw, s);
    if p >= 0 {
        assert(raw.push(added)[p] == raw[p]);
    }
}

/// What the registry remembers of a service that a resource has claimed
/// at some time.
#[derive(Debug)]
pub struct KnownService {
    pub name: String,
    /// The generation of the last update of the service.
    pub latest: usize,
    /// Whether that update was written to the routing table at once: the
    /// service was unloaded or is passed through.
    pub settled: bool,
}

/// What an update of a service amounts to.
#[derive(Debug, Clone, Copy, PartialEq, Eq, Structural)]
pub enum UpdateKind {
    /// No resource claims the service: it was written to the table with
    /// no spec and no backends.
    Unloaded,
    /// The chosen resource names no descriptor set: the service was
    /// written to the table as passed through.
    Passthrough,
    /// The chosen resource names a descriptor set, which is to be fetched.
    /// The table stays as it is until the fetch is handed back.
    FetchDescriptor,
    /// The service name of the chosen resource holds no `.`: nothing was
    /// written.
    InvalidServiceName,
}

/// A descriptor fetch that the registry asks for, with what is needed to
/// complete the update once the descriptor set is there.
#[derive(Debug)]
pub struct PendingFetch {
    pub service_name: String,
    pub service: QualifiedService,
    /// The generation of the update that asked for the fetch.
    pub generation: usize,
    pub source: DescriptorSetSource,
    pub load_balancer: Arc<ServiceBackendsHandle>,
}

/// What an update of one service did and what it asks of the caller.
#[derive(Debug)]
pub struct ServiceUpdate {
    /// The service that was brought up to date.
    pub service_name: String,
    /// The generation that the update took.
    pub generation: usize,
    /// How many resources claim the service. More than one is an error
    /// that the caller reports; the update goes on with the chosen one.
    pub claimants: usize,
    pub kind: UpdateKind,
    /// A new handle was made for the upstream: its discovery loop is to be
    /// started.
    pub started_discovery: bool,
    /// The handle of the upstream, where one was bound.
    pub load_balancer: Option<Arc<ServiceBackendsHandle>>,
    /// The fetch to perform, for `UpdateKind::FetchDescriptor`.
    pub fetch: Option<PendingFetch>,
}

/// Whether `known` holds a record of the service `s`.
pub open spec fn is_known(known: Seq<KnownService>, s: Seq<char>) -> bool {
    exists|k: int| 0 <= k < known.len() && (#[trigger] known[k]).name@ == s
}

/// Whether `data` is what the table shows of a service without claimant:
/// no spec and no backends.
pub open spec fn is_unloaded(data: ServiceData) -> bool {
    data.service_spec is None && data.load_balancer is None
}

/// Whether `data` is what the table shows of a service that `res` declares
/// without a descriptor set: the upstream of `res` is bound, and the spec
/// bears the service's name, is passed through and has no methods.
pub open spec fn passthrough_of(data: ServiceData, res: GrcacheService) -> bool {
    &&& res.spec.descriptor_set_source is None
    &&& res.spec.upstream matches Upstream::Dns { url, port }
    &&& data.load_balancer matches Some(h)
    &&& h.host@ == url@
    &&& h.port == port
    &&& data.service_spec matches Some(sp)
    &&& sp.passthrough
    &&& sp.methods@.len() == 0
    &&& names_service(sp.name, res.spec.service_name@)
}

/// Whether `data` shows the last seen state of the resources for the
/// service `s`: the service is unloaded where nothing claims it, else it
/// is the passthrough of the chosen claimant.
pub open spec fn reflects(data: ServiceData, raw: Seq<GrcacheService>, s: Seq<char>) -> bool {
    match chosen(raw, s) {
        None => is_unloaded(data),
        Some(res) => passthrough_of(data, res),
    }
}

/// What an update of `s` amounts to, given the resources.
pub open spec fn update_kind(raw: Seq<GrcacheService>, s: Seq<char>) -> UpdateKind {
    match chosen(raw, s) {
        None => UpdateKind::Unloaded,
        Some(res) => if crate::text::last_index_of(
            encode_utf8(res.spec.service_name@),
            crate::qualified_service::DOT,
        ) < 0 {
            UpdateKind::InvalidServiceName
        } else if res.spec.descriptor_set_source is None {
            UpdateKind::Passthrough
        } else {
            UpdateKind::FetchDescriptor
        },
    }
}

/// The state of the registry: the resources as they were last seen, the
/// services that were ever claimed, and the next generation.
#[derive(Debug)]
pub struct ServiceConfigState {
    spec_generation: usize,
    raw_services: Vec<GrcacheService>,
    known: Vec<KnownService>,
}

impl ServiceConfigState {
    /// The resources as they were last seen, one for each namespace and
    /// name.
    pub closed spec fn raw(&self) -> Seq<GrcacheService> {
        self.raw_services@
    }

    /// The services that were ever claimed.
    pub closed spec fn known(&self) -> Seq<KnownService> {
        self.known@
    }

    /// The generation that the next update takes.
    pub closed spec fn generation(&self) -> usize {
        self.spec_generation
    }

    /// What holds between the registry and the routing table `table`,
    /// but for the services of `pending`, whose update is still owed:
    /// the resources have distinct names; every claimed service is known;
    /// the table never shows a generation above the last update's; and a
    /// settled service is shown as its last update wrote it, which is as
    /// the resources now declare it.
    pub open spec fn inv_but(
        &self,
        table: Map<Seq<char>, ServiceData>,
        pending: Set<Seq<char>>,
    ) -> bool {
        &&& distinct_refs(self.raw())
        &&& forall|i: int, j: int|
            0 <= i < j < self.known().len() ==> (#[trigger] self.known()[i]).name@ != (
            #[trigger] self.known()[j]).name@
        &&& forall|k: int|
            0 <= k < self.known().len() ==> (#[trigger] self.known()[k]).latest < self.generation()
        &&& forall|i: int|
            0 <= i < self.raw().len() ==> is_known(
                self.known(),
                (#[trigger] self.raw()[i]).spec.service_name@,
            ) || pending.contains(self.raw()[i].spec.service_name@)
        &&& forall|k: int|
            0 <= k < self.known().len() && table.contains_key((#[trigger] self.known()[k]).name@)
                ==> table[self.known()[k].name@].generation <= self.known()[k].latest
        &&& forall|k: int|
            0 <= k < self.known().len() && (#[trigger] self.known()[k]).settled
                && !pending.contains(self.known()[k].name@) ==> {
                &&& table.contains_key(self.known()[k].name@)
                &&& table[self.known()[k].name@].generation == self.known()[k].latest
                &&& reflects(table[self.known()[k].name@], self.raw(), self.known()[k].name@)
            }
    }

    /// What holds between the registry and the routing table whenever no
    /// update is owed.
    pub open spec fn inv(&self, table: Map<Seq<char>, ServiceData>) -> bool {
        self.inv_but(table, Set::empty())
    }

    /// A registry that has seen no resource.
    pub fn new() -> (s: ServiceConfigState)
        ensures
            s.raw() == Seq::<GrcacheService>::empty(),
            s.known() == Seq::<KnownService>::empty(),
            s.generation() == 0,
            forall|table: Map<Seq<char>, ServiceData>| #[trigger] s.inv(table),
    {
        ServiceConfigState { spec_generation: 0, raw_services: Vec::new(), known: Vec::new() }
    }

    /// The position of the resource that goes by `object_ref`.
    pub fn position(&self, object_ref: &ObjectRef) -> (r: Option<usize>)
        ensures
            match r {
                Some(i) => i < self.raw().len() && self.raw()[i as int].is_named(*object_ref),
                None => forall|j: int|
                    0 <= j < self.raw().len() ==> !(#[trigger] self.raw()[j]).is_named(*object_ref),
            },
    {
        let mut i: usize = 0;
        while i < self.raw_services.len()
            invariant
                i <= self.raw_services.len(),
                forall|j: int| 0 <= j < i ==> !(#[trigger] self.raw_services@[j]).is_named(*object_ref),
            decreases self.raw_services.len() - i,
        {
            if resource_is_named(&self.raw_services[i], object_ref) {
                return Some(i);
            }
            i += 1;
        }
        None
    }

    /// The position of the record of the service `s`.
    fn known_position(&self, s: &str) -> (r: Option<usize>)
        ensures
            match r {
                Some(k) => k < self.known().len() && self.known()[k as int].name@ == s@,
                None => !is_known(self.known(), s@),
            },
    {
        let mut k: usize = 0;
        while k < self.known.len()
            invariant
                k <= self.known.len(),
                forall|j: int| 0 <= j < k ==> (#[trigger] self.known@[j]).name@ != s@,
            decreases self.known.len() - k,
        {
            if str_eq(self.known[k].name.as_str(), s) {
                return Some(k);
            }
            k += 1;
        }
        None
    }

    /// Finds the resource that speaks for the service `s` and counts the
    /// resources that claim it.
    pub fn choose_resource(&self, s: &str) -> (r: (Option<usize>, usize))
        ensures
            match r.0 {
                Some(i) => i as int == chosen_index(self.raw(), s@),
                None => chosen_index(self.raw(), s@) == -1,
            },
            r.1 == claimants(self.raw(), s@),
    {
        let mut best: Option<usize> = None;
        let mut count: usize = 0;
        let mut i: usize = 0;
        proof {
            assert(self.raw_services@.subrange(0, 0) =~= Seq::<GrcacheService>::empty());
        }
        while i < self.raw_services.len()
            invariant
                i <= self.raw_services.len(),
                count <= i,
                count == claimants(self.raw_services@.subrange(0, i as int), s@),
                match best {
                    Some(b) => b < i && b as int == chosen_index(
                        self.raw_services@.subrange(0, i as int),
                        s@,
                    ),
                    None => chosen_index(self.raw_services@.subrange(0, i as int), s@) == -1,
                },
            decreases self.raw_services.len() - i,
        {
            let ghost head = self.raw_services@.subrange(0, i as int);
            let ghost next = self.raw_services@.subrange(0, i + 1);
            proof {
                assert(next.drop_last() =~= head);
                assert(next.last() == self.raw_services@[i as int]);
            }
            if str_eq(self.raw_services[i].spec.service_name.as_str(), s) {
                count += 1;
                match best {
                    Some(b) => {
                        proof {
                            assert(next[b as int] == self.raw_services@[b as int]);
                        }
                        if resource_before(&self.raw_services[i], &self.raw_services[b]) {
                            best = Some(i);
                        }
                    },
                    None => {
                        best = Some(i);
                    },
                }
            }
            i += 1;
        }
        proof {
            assert(self.raw_services@.subrange(0, i as int) =~= self.raw_services@);
        }
        (best, count)
    }
}

/// The table entry of a service that no resource claims.
pub open spec fn unloaded_data(generation: usize) -> ServiceData {
    ServiceData { generation, service_spec: None, load_balancer: None }
}

impl ServiceConfigState {
    /// Notes that the service `s` was updated with the generation
    /// `latest`.
    fn record_update(&mut self, s: &str, latest: usize, settled: bool) -> (k: usize)
        ensures
            final(self).raw() == old(self).raw(),
            final(self).generation() == old(self).generation(),
            k < final(self).known().len(),
            final(self).known()[k as int].name@ == s@,
            final(self).known()[k as int].latest == latest,
            final(self).known()[k as int].settled == settled,
            is_known(old(self).known(), s@) ==> final(self).known().len() == old(self).known().len()
                && old(self).known()[k as int].name@ == s@,
            !is_known(old(self).known(), s@) ==> final(self).known().len() == old(self).known().len() + 1 && k == old(self).known().len(),
            forall|j: int|
                0 <= j < old(self).known().len() && j != k ==> #[trigger] final(self).known()[j]
                    == old(self).known()[j],
    {
        match self.known_position(s) {
            Some(k) => {
                let name = self.known[k].name.clone();
                self.known.set(k, KnownService { name, latest, settled });
                k
            },
            None => {
                self.known.push(KnownService { name: s.to_owned(), latest, settled });
                self.known.len() - 1
            },
        }
    }

    /// Brings the routing table up to date for the service `grpc_service`.
    ///
    /// The update takes a fresh generation. Where no resource claims the
    /// service, the table shows it without spec and backends. Else the
    /// claimant that comes first by namespace and name is chosen and its
    /// upstream is bound. A resource without descriptor set is written to
    /// the table at once, as passed through; one with a descriptor set
    /// gives a fetch that the caller performs and hands back.
    fn update_service(
        &mut self,
        config: &mut ServiceConfigInner,
        dns: &mut Handle,
        grpc_service: &str,
        Ghost(pending): Ghost<Set<Seq<char>>>,
    ) -> (u: ServiceUpdate)
        requires
            old(self).inv_but(old(config)@, pending),
            forall|n: Seq<char>| old(config)@.contains_key(n) ==> is_known(old(self).known(), n),
            old(self).generation() < usize::MAX,
            old(dns).wf(),
            old(dns).next_id() < u64::MAX,
        ensures
            final(self).inv_but(final(config)@, pending.remove(grpc_service@)),
            forall|n: Seq<char>| final(config)@.contains_key(n) ==> is_known(final(self).known(), n),
            final(self).raw() == old(self).raw(),
            final(self).generation() == old(self).generation() + 1,
            final(config).ready == old(config).ready,
            final(dns).wf(),
            final(dns).next_id() <= old(dns).next_id() + 1,
            u.service_name@ == grpc_service@,
            u.generation == old(self).generation(),
            u.claimants == claimants(old(self).raw(), grpc_service@),
            u.kind == update_kind(old(self).raw(), grpc_service@),
            match u.kind {
                UpdateKind::Unloaded => final(config)@ == old(config)@.insert(
                    grpc_service@,
                    unloaded_data(u.generation),
                ),
                UpdateKind::Passthrough => {
                    &&& final(config)@.contains_key(grpc_service@)
                    &&& final(config)@ == old(config)@.insert(
                        grpc_service@,
                        final(config)@[grpc_service@],
                    )
                    &&& final(config)@[grpc_service@].generation == u.generation
                    &&& passthrough_of(
                        final(config)@[grpc_service@],
                        chosen(old(self).raw(), grpc_service@)->0,
                    )
                },
                _ => final(config)@ == old(config)@,
            },
            u.fetch is Some <==> u.kind == UpdateKind::FetchDescriptor,
            u.fetch matches Some(f) ==> {
                let res = chosen(old(self).raw(), grpc_service@)->0;
                &&& f.generation == u.generation
                &&& f.service_name@ == grpc_service@
                &&& Some(f.source) == res.spec.descriptor_set_source
                &&& names_service(f.service, grpc_service@)
                &&& res.spec.upstream matches Upstream::Dns { url, port }
                &&& f.load_balancer.host@ == url@
                &&& f.load_balancer.port == port
            },
            (u.kind == UpdateKind::Passthrough || u.kind == UpdateKind::FetchDescriptor) ==> {
                let res = chosen(old(self).raw(), grpc_service@)->0;
                &&& res.spec.upstream matches Upstream::Dns { url, port }
                &&& u.load_balancer matches Some(h)
                &&& h.host@ == url@
                &&& h.port == port
                &&& live_id(final(dns).entries(), url@, port) == Some(h.id)
                &&& u.started_discovery == (live_id(old(dns).entries(), url@, port) is None)
            },
            (u.kind == UpdateKind::Unloaded || u.kind == UpdateKind::InvalidServiceName) ==> {
                &&& u.load_balancer is None
                &&& !u.started_discovery
                &&& final(dns).entries() == old(dns).entries()
                &&& final(dns).next_id() == old(dns).next_id()
            },
    {
        let ghost s = grpc_service@;
        let ghost raw = self.raw();
        let ghost table = config@;
        let ghost known0 = self.known();
        proof {
            lemma_chosen_index_bound(raw, s);
        }
        let (best, count) = self.choose_resource(grpc_service);
        let generation = self.spec_generation;
        self.spec_generation = generation + 1;
        let mut kind = UpdateKind::Unloaded;
        let mut settled = false;
        let mut started = false;
        let mut load_balancer: Option<Arc<ServiceBackendsHandle>> = None;
        let mut fetch: Option<PendingFetch> = None;
        let mut publish: Option<ServiceData> = None;
        match best {
            None => {
                publish = Some(ServiceData { generation, service_spec: None, load_balancer: None });
                settled = true;
            },
            Some(i) => {
                let object = &self.raw_services[i];
                match QualifiedService::parse(object.spec.service_name.as_str()) {
                    Err(_) => {
                        kind = UpdateKind::InvalidServiceName;
                    },
                    Ok(service) => {
                        match &object.spec.upstream {
                            Upstream::Dns { url, port } => {
                                let (handle, is_new) = dns.backends_for_hostname(url.clone(), *port);
                                started = is_new;
                                let bound = ServiceBackendsHandle {
                                    id: handle.id,
                                    host: handle.host.clone(),
                                    port: handle.port,
                                };
                                load_balancer = Some(Arc::new(bound));
                                match &object.spec.descriptor_set_source {
                                    Some(source) => {
                                        kind = UpdateKind::FetchDescriptor;
                                        fetch = Some(
                                            PendingFetch {
                                                service_name: grpc_service.to_owned(),
                                                service,
                                                generation,
                                                source: source.duplicate(),
                                                load_balancer: Arc::new(handle),
                                            },
                                        );
                                    },
                                    None => {
                                        kind = UpdateKind::Passthrough;
                                        settled = true;
                                        let spec = ServiceSpec::build_passthrough(&service);
                                        publish = Some(
                                            ServiceData {
                                                generation,
                                                service_spec: Some(Arc::new(spec)),
                                                load_balancer: Some(Arc::new(handle)),
                                            },
                                        );
                                    },
                                }
                            },
                        }
                    },
                }
            },
        }
        let ghost published = publish;
        match publish {
            Some(data) => {
                config.insert(grpc_service.to_owned(), data);
            },
            None => {},
        }
        let k = self.record_update(grpc_service, generation, settled);
        proof {
            let known = self.known();
            let after = config@;
            let rest = pending.remove(s);
            assert forall|n: Seq<char>| after.contains_key(n) implies is_known(known, n) by {
                if n == s {
                    assert(known[k as int].name@ == s);
                } else {
                    assert(table.contains_key(n)) by {
                        if published is Some {
                            assert(after == table.insert(s, published->0));
                        }
                    }
                    assert(is_known(known0, n));
                    let j = choose|j: int| 0 <= j < known0.len() && (#[trigger] known0[j]).name@ == n;
                    assert(j != k);
                    assert(known[j] == known0[j]);
                    assert(known[j].name@ == n);
                }
            }
            assert forall|i: int, j: int| 0 <= i < j < known.len() implies (#[trigger] known[i]).name@
                != (#[trigger] known[j]).name@ by {
                if i != k && j != k {
                    assert(known[i] == known0[i]);
                    assert(known[j] == known0[j]);
                } else if is_known(known0, s) {
                    if i == k {
                        assert(known[j] == known0[j]);
                    } else {
                        assert(known[i] == known0[i]);
                    }
                } else {
                    assert(known[i] == known0[i]);
                    assert(known0[i].name@ != s);
                }
            }
            assert forall|j: int| 0 <= j < known.len() implies (#[trigger] known[j]).latest
                < self.generation() by {
                if j != k {
                    assert(known[j] == known0[j]);
                }
            }
            assert forall|i: int| 0 <= i < raw.len() implies is_known(
                known,
                (#[trigger] raw[i]).spec.service_name@,
            ) || rest.contains(raw[i].spec.service_name@) by {
                let n = raw[i].spec.service_name@;
                if n == s {
                    assert(known[k as int].name@ == s);
                } else if is_known(known0, n) {
                    let j = choose|j: int| 0 <= j < known0.len() && (#[trigger] known0[j]).name@ == n;
                    assert(j != k);
                    assert(known[j] == known0[j]);
                    assert(known[j].name@ == n);
                }
            }
            assert forall|j: int|
                0 <= j < known.len() && after.contains_key((#[trigger] known[j]).name@)
                    implies after[known[j].name@].generation <= known[j].latest by {
                if j != k {
                    assert(known[j] == known0[j]);
                    assert(known0[j].name@ != s) by {
                        if is_known(known0, s) {
                            if j < k {
                                assert(known0[j].name@ != known0[k as int].name@);
                            } else {
                                assert(known0[k as int].name@ != known0[j].name@);
                            }
                        }
                    }
                } else if published is None {
                    assert(table.contains_key(s));
                    assert(is_known(known0, s));
                }
            }
            assert forall|j: int|
                0 <= j < known.len() && (#[trigger] known[j]).settled && !rest.contains(
                    known[j].name@,
                ) implies after.contains_key(known[j].name@) && after[known[j].name@].generation
                == known[j].latest && reflects(after[known[j].name@], raw, known[j].name@) by {
                if j != k {
                    assert(known[j] == known0[j]);
                    assert(known0[j].name@ != s) by {
                        if is_known(known0, s) {
                            if j < k {
                                assert(known0[j].name@ != known0[k as int].name@);
                            } else {
                                assert(known0[k as int].name@ != known0[j].name@);
                            }
                        }
                    }
                    assert(!pending.contains(known0[j].name@));
                }
            }
        }
        ServiceUpdate {
            service_name: grpc_service.to_owned(),
            generation,
            claimants: count,
            kind,
            started_discovery: started,
            load_balancer,
            fetch,
        }
    }
}

/// Whether `after` is `before` with `object` taken in: `object` stands
/// behind the others, in place of whatever went by its namespace and
/// name.
pub open spec fn raw_after_apply(
    before: Seq<GrcacheService>,
    after: Seq<GrcacheService>,
    object: GrcacheService,
) -> bool {
    (exists|k: int|
        0 <= k < before.len() && same_ref(#[trigger] before[k], object) && after == before.remove(
            k,
        ).push(object)) || ((forall|k: int|
        0 <= k < before.len() ==> !same_ref(#[trigger] before[k], object)) && after == before.push(
        object,
    ))
}

/// Whether `data` is what an update of the kind `kind` and the generation
/// `generation` wrote for the service `s`, given the resources `raw`.
pub open spec fn written_by(
    data: ServiceData,
    kind: UpdateKind,
    generation: usize,
    raw: Seq<GrcacheService>,
    s: Seq<char>,
) -> bool {
    match kind {
        UpdateKind::Unloaded => data == unloaded_data(generation),
        UpdateKind::Passthrough => data.generation == generation && chosen(raw, s) is Some
            && passthrough_of(data, chosen(raw, s)->0),
        _ => true,
    }
}

/// Whether the entries of all services but `a` and `b` are in `after` as
/// they were in `before`.
pub open spec fn others_stay(
    before: Map<Seq<char>, ServiceData>,
    after: Map<Seq<char>, ServiceData>,
    a: Seq<char>,
    b: Seq<char>,
) -> bool {
    forall|n: Seq<char>|
        n != a && n != b ==> (#[trigger] after.contains_key(n) <==> before.contains_key(n)) && (
        before.contains_key(n) ==> after[n] == before[n])
}

/// Whether `u` reports the update of the service `s` at the generation
/// `generation`, given the resources `raw` and the table before and after:
/// the kind and the number of claimants are those of `s`; an unloaded or
/// passed-through service is written to the table, any other leaves its
/// entry as it was; and a fetch is asked for exactly where the chosen
/// resource names a descriptor set, for that source and that upstream.
pub open spec fn reports_update(
    u: ServiceUpdate,
    before: Map<Seq<char>, ServiceData>,
    after: Map<Seq<char>, ServiceData>,
    raw: Seq<GrcacheService>,
    s: Seq<char>,
    generation: int,
) -> bool {
    &&& u.service_name@ == s
    &&& u.generation == generation
    &&& u.claimants == claimants(raw, s)
    &&& u.kind == update_kind(raw, s)
    &&& (u.kind == UpdateKind::Unloaded || u.kind == UpdateKind::Passthrough) ==> after.contains_key(
        s,
    ) && written_by(after[s], u.kind, u.generation, raw, s)
    &&& (u.kind == UpdateKind::FetchDescriptor || u.kind == UpdateKind::InvalidServiceName) ==> (
    after.contains_key(s) <==> before.contains_key(s)) && (before.contains_key(s) ==> after[s]
        == before[s])
    &&& u.fetch is Some <==> u.kind == UpdateKind::FetchDescriptor
    &&& u.fetch matches Some(f) ==> {
        &&& f.generation == generation
        &&& f.service_name@ == s
        &&& names_service(f.service, s)
        &&& chosen(raw, s) matches Some(res)
        &&& Some(f.source) == res.spec.descriptor_set_source
        &&& res.spec.upstream matches Upstream::Dns { url, port }
        &&& f.load_balancer.host@ == url@
        &&& f.load_balancer.port == port
    }
}

/// What taking in a resource did.
#[derive(Debug)]
pub struct ApplyReport {
    /// The update of the service that the resource claims.
    pub update: ServiceUpdate,
    /// The update of the service that the resource claimed before, where
    /// that was another one.
    pub previous: Option<ServiceUpdate>,
}

/// Whether `data` is what a completed fetch writes: the generation and
/// the upstream of the fetch, and the spec that the descriptor set gives.
pub open spec fn loaded_of(data: ServiceData, fetch: PendingFetch, set: DescriptorSet) -> bool {
    &&& data.generation == fetch.generation
    &&& data.load_balancer == Some(fetch.load_balancer)
    &&& service_position(set.files@, fetch.service.package@, fetch.service.name@) matches Some(
        (f, s),
    )
    &&& data.service_spec matches Some(spec)
    &&& built_from(*spec, set.files@[f].services@[s].methods@, fetch.service)
}

impl ServiceConfigState {
    /// What holds between the registry and the routing table that it
    /// fills: the table holds only services that the registry knows, and
    /// shows every settled service as the resources declare it.
    pub open spec fn wf(&self, table: Map<Seq<char>, ServiceData>) -> bool {
        &&& self.inv(table)
        &&& forall|n: Seq<char>| table.contains_key(n) ==> is_known(self.known(), n)
    }

    /// Takes in a resource: it stands for whatever went by its namespace
    /// and name before, and the service that it claims is brought up to
    /// date, as is the service that it claimed before.
    pub fn apply(
        &mut self,
        config: &mut ServiceConfigInner,
        dns: &mut Handle,
        object: GrcacheService,
    ) -> (report: ApplyReport)
        requires
            old(self).wf(old(config)@),
            old(self).generation() < usize::MAX - 1,
            old(dns).wf(),
            old(dns).next_id() < u64::MAX - 1,
        ensures
            final(self).wf(final(config)@),
            final(config).ready == old(config).ready,
            final(dns).wf(),
            final(dns).next_id() <= old(dns).next_id() + 2,
            final(self).raw().len() > 0,
            final(self).raw().last() == object,
            raw_after_apply(old(self).raw(), final(self).raw(), object),
            report.update.kind != UpdateKind::Unloaded,
            reports_update(
                report.update,
                old(config)@,
                final(config)@,
                final(self).raw(),
                object.spec.service_name@,
                old(self).generation() as int,
            ),
            report.previous is Some <==> exists|k: int|
                0 <= k < old(self).raw().len() && same_ref(#[trigger] old(self).raw()[k], object)
                    && old(self).raw()[k].spec.service_name@ != object.spec.service_name@,
            report.previous matches Some(p) ==> {
                &&& p.service_name@ != object.spec.service_name@
                &&& exists|k: int|
                    0 <= k < old(self).raw().len() && same_ref(#[trigger] old(self).raw()[k], object)
                        && old(self).raw()[k].spec.service_name@ == p.service_name@
                &&& reports_update(
                    p,
                    old(config)@,
                    final(config)@,
                    final(self).raw(),
                    p.service_name@,
                    old(self).generation() + 1,
                )
                &&& others_stay(
                    old(config)@,
                    final(config)@,
                    object.spec.service_name@,
                    p.service_name@,
                )
            },
            report.previous is None ==> others_stay(
                old(config)@,
                final(config)@,
                object.spec.service_name@,
                object.spec.service_name@,
            ),
            final(self).generation() == old(self).generation() + (if report.previous is Some {
                2int
            } else {
                1int
            }),
    {
        let ghost raw0 = self.raw();
        let ghost table = config@;
        let ghost s_new = object.spec.service_name@;
        let object_ref = object.object_ref();
        let name = object.spec.service_name.clone();
        let found = self.position(&object_ref);
        let mut old_name: Option<String> = None;
        let ghost mut s_old = s_new;
        proof {
            assert forall|j: int| 0 <= j < raw0.len() implies (#[trigger] raw0[j]).is_named(
                object_ref,
            ) == same_ref(raw0[j], object) by {}
        }
        match found {
            Some(k) => {
                let previous = self.raw_services.remove(k);
                proof {
                    s_old = previous.spec.service_name@;
                    assert(self.raw() =~= raw0.remove(k as int));
                }
                if !str_eq(previous.spec.service_name.as_str(), name.as_str()) {
                    old_name = Some(previous.spec.service_name);
                }
            },
            None => {},
        }
        let ghost raw1 = self.raw();
        let ghost added = object;
        self.raw_services.push(object);
        let ghost raw2 = self.raw();
        let ghost pending = Set::<Seq<char>>::empty().insert(s_new).insert(s_old);
        proof {
            assert(raw2 =~= raw1.push(added));
            assert(distinct_refs(raw2)) by {
                assert forall|i: int, j: int| 0 <= i < j < raw2.len() implies !same_ref(
                    #[trigger] raw2[i],
                    #[trigger] raw2[j],
                ) by {
                    match found {
                        Some(k) => {
                            let bi = if i < k { i } else { i + 1 };
                            assert(raw2[i] == raw0[bi]);
                            if j < raw1.len() {
                                let bj = if j < k { j } else { j + 1 };
                                assert(raw2[j] == raw0[bj]);
                            } else {
                                if bi < k {
                                    assert(!same_ref(raw0[bi], raw0[k as int]));
                                } else {
                                    assert(!same_ref(raw0[k as int], raw0[bi]));
                                }
                            }
                        },
                        None => {
                            assert(raw2[i] == raw0[i]);
                            if j < raw1.len() {
                                assert(raw2[j] == raw0[j]);
                            }
                        },
                    }
                }
            }
            assert forall|i: int| 0 <= i < raw2.len() implies is_known(
                self.known(),
                (#[trigger] raw2[i]).spec.service_name@,
            ) || pending.contains(raw2[i].spec.service_name@) by {
                if i < raw1.len() {
                    match found {
                        Some(k) => {
                            let bi = if i < k { i } else { i + 1 };
                            assert(raw2[i] == raw0[bi]);
                        },
                        None => {
                            assert(raw2[i] == raw0[i]);
                        },
                    }
                }
            }
            assert forall|k: int|
                0 <= k < self.known().len() && (#[trigger] self.known()[k]).settled
                    && !pending.contains(self.known()[k].name@) implies reflects(
                table[self.known()[k].name@],
                raw2,
                self.known()[k].name@,
            ) by {
                let n = self.known()[k].name@;
                assert(reflects(table[n], raw0, n));
                match found {
                    Some(p) => {
                        lemma_chosen_after_remove(raw0, p as int, n);
                    },
                    None => {},
                }
                lemma_chosen_after_push(raw1, added, n);
            }
            assert(self.inv_but(table, pending));
        }
        let update = self.update_service(config, dns, name.as_str(), Ghost(pending));
        let previous = match old_name {
            Some(before) => {
                proof {
                    assert(pending.remove(s_new) =~= Set::<Seq<char>>::empty().insert(s_old));
                }
                let u = self.update_service(
                    config,
                    dns,
                    before.as_str(),
                    Ghost(pending.remove(s_new)),
                );
                proof {
                    assert(pending.remove(s_new).remove(s_old) =~= Set::<Seq<char>>::empty());
                }
                Some(u)
            },
            None => {
                proof {
                    assert(s_old == s_new);
                    assert(pending.remove(s_new) =~= Set::<Seq<char>>::empty());
                }
                None
            },
        };
        proof {
            match found {
                Some(k) => {
                    assert(same_ref(raw0[k as int], added));
                },
                None => {},
            }
        }
        ApplyReport { update, previous }
    }

    /// Takes in the deletion of the resource that goes by `object_ref`.
    /// Where the registry holds such a resource, it is forgotten and the
    /// service that it claimed is brought up to date; else nothing
    /// happens.
    pub fn remove(
        &mut self,
        config: &mut ServiceConfigInner,
        dns: &mut Handle,
        object_ref: &ObjectRef,
    ) -> (r: Option<ServiceUpdate>)
        requires
            old(self).wf(old(config)@),
            old(self).generation() < usize::MAX,
            old(dns).wf(),
            old(dns).next_id() < u64::MAX,
        ensures
            final(self).wf(final(config)@),
            final(config).ready == old(config).ready,
            final(dns).wf(),
            final(dns).next_id() <= old(dns).next_id() + 1,
            match r {
                Some(u) => {
                    &&& exists|k: int|
                        0 <= k < old(self).raw().len() && (#[trigger] old(self).raw()[k]).is_named(
                            *object_ref,
                        ) && final(self).raw() == old(self).raw().remove(k) && old(self).raw()[k].spec.service_name@ == u.service_name@
                    &&& reports_update(
                        u,
                        old(config)@,
                        final(config)@,
                        final(self).raw(),
                        u.service_name@,
                        old(self).generation() as int,
                    )
                    &&& others_stay(old(config)@, final(config)@, u.service_name@, u.service_name@)
                    &&& final(self).generation() == old(self).generation() + 1
                },
                None => final(self).raw() == old(self).raw() && final(config)@ == old(config)@
                    && final(self).generation() == old(self).generation() && forall|k: int|
                    0 <= k < old(self).raw().len() ==> !(#[trigger] old(self).raw()[k]).is_named(
                        *object_ref,
                    ),
            },
    {
        let ghost raw0 = self.raw();
        let ghost table = config@;
        match self.position(object_ref) {
            Some(k) => {
                let previous = self.raw_services.remove(k);
                let ghost s = previous.spec.service_name@;
                let ghost raw1 = self.raw();
                let ghost pending = Set::<Seq<char>>::empty().insert(s);
                proof {
                    assert(raw1 =~= raw0.remove(k as int));
                    assert(distinct_refs(raw1)) by {
                        assert forall|i: int, j: int| 0 <= i < j < raw1.len() implies !same_ref(
                            #[trigger] raw1[i],
                            #[trigger] raw1[j],
                        ) by {
                            let bi = if i < k { i } else { i + 1 };
                            let bj = if j < k { j } else { j + 1 };
                            assert(raw1[i] == raw0[bi]);
                            assert(raw1[j] == raw0[bj]);
                        }
                    }
                    assert forall|i: int| 0 <= i < raw1.len() implies is_known(
                        self.known(),
                        (#[trigger] raw1[i]).spec.service_name@,
                    ) || pending.contains(raw1[i].spec.service_name@) by {
                        let bi = if i < k { i } else { i + 1 };
                        assert(raw1[i] == raw0[bi]);
                    }
                    assert forall|j: int|
                        0 <= j < self.known().len() && (#[trigger] self.known()[j]).settled
                            && !pending.contains(self.known()[j].name@) implies reflects(
                        table[self.known()[j].name@],
                        raw1,
                        self.known()[j].name@,
                    ) by {
                        let n = self.known()[j].name@;
                        assert(reflects(table[n], raw0, n));
                        lemma_chosen_after_remove(raw0, k as int, n);
                    }
                    assert(self.inv_but(table, pending));
                }
                let u = self.update_service(
                    config,
                    dns,
                    previous.spec.service_name.as_str(),
                    Ghost(pending),
                );
                proof {
                    assert(pending.remove(s) =~= Set::<Seq<char>>::empty());
                }
                Some(u)
            },
            None => None,
        }
    }

    /// Takes in the descriptor set of a fetch that `update_service` asked
    /// for.
    ///
    /// The spec is built and written to the table if the table does not
    /// show the same generation or a newer one. A fetch of a service that
    /// the registry does not know, or of a generation above that of the
    /// service's last update, is dropped.
    pub fn complete_descriptor_fetch(
        &self,
        config: &mut ServiceConfigInner,
        fetch: PendingFetch,
        descriptor_set: &DescriptorSet,
    ) -> (r: Result<(UpdateOutcome, Vec<ValidationError>), crate::service::Error>)
        requires
            self.wf(old(config)@),
        ensures
            self.wf(final(config)@),
            final(config).ready == old(config).ready,
            ({
                let name = fetch.service_name@;
                let current = exists|k: int|
                    0 <= k < self.known().len() && (#[trigger] self.known()[k]).name@ == name
                        && fetch.generation <= self.known()[k].latest;
                let found = service_position(
                    descriptor_set.files@,
                    fetch.service.package@,
                    fetch.service.name@,
                );
                if !current {
                    &&& r matches Ok((outcome, errors))
                    &&& outcome == UpdateOutcome::Aborted
                    &&& errors@.len() == 0
                    &&& final(config)@ == old(config)@
                } else {
                    match found {
                        None => {
                            &&& r is Err
                            &&& final(config)@ == old(config)@
                        },
                        Some((f, s)) => {
                            &&& r matches Ok((outcome, errors))
                            &&& reports_ttls(
                                errors@,
                                invalid_ttls(descriptor_set.files@[f].services@[s].methods@),
                            )
                            &&& outcome == UpdateOutcome::Aborted <==> (old(config)@.contains_key(
                                name,
                            ) && old(config)@[name].generation >= fetch.generation)
                            &&& outcome == UpdateOutcome::Aborted ==> final(config)@ == old(config)@
                            &&& outcome != UpdateOutcome::Aborted ==> {
                                &&& final(config)@.contains_key(name)
                                &&& final(config)@ == old(config)@.insert(
                                    name,
                                    final(config)@[name],
                                )
                                &&& loaded_of(final(config)@[name], fetch, *descriptor_set)
                            }
                        },
                    }
                }
            }),
    {
        let ghost table = config@;
        let ghost name = fetch.service_name@;
        let k = match self.known_position(fetch.service_name.as_str()) {
            Some(k) => k,
            None => {
                return Ok((UpdateOutcome::Aborted, Vec::new()));
            },
        };
        if self.known[k].latest < fetch.generation {
            proof {
                assert forall|j: int|
                    0 <= j < self.known().len() && (#[trigger] self.known()[j]).name@ == name
                        implies !(fetch.generation <= self.known()[j].latest) by {
                    if j < k {
                        assert(self.known()[j].name@ != self.known()[k as int].name@);
                    } else if j > k {
                        assert(self.known()[k as int].name@ != self.known()[j].name@);
                    }
                }
            }
            return Ok((UpdateOutcome::Aborted, Vec::new()));
        }
        assert(self.known()[k as int].name@ == name && fetch.generation <= self.known()[k as int].latest);
        let (spec, errors) = match ServiceSpec::build(descriptor_set, &fetch.service) {
            Ok(built) => built,
            Err(e) => {
                return Err(e);
            },
        };
        let data = ServiceData {
            generation: fetch.generation,
            service_spec: Some(Arc::new(spec)),
            load_balancer: Some(fetch.load_balancer),
        };
        let outcome = config.update_service_if_newer(fetch.service_name, data);
        proof {
            let after = config@;
            assert(after == updated_if_newer(table, name, data));
            assert forall|n: Seq<char>| after.contains_key(n) implies is_known(self.known(), n) by {
                if n == name {
                    assert(self.known()[k as int].name@ == n);
                }
            }
            assert forall|j: int|
                0 <= j < self.known().len() && after.contains_key((#[trigger] self.known()[j]).name@)
                    implies after[self.known()[j].name@].generation <= self.known()[j].latest by {
                if j < k {
                    assert(self.known()[j].name@ != self.known()[k as int].name@);
                } else if j > k {
                    assert(self.known()[k as int].name@ != self.known()[j].name@);
                }
            }
            assert forall|j: int|
                0 <= j < self.known().len() && (#[trigger] self.known()[j]).settled implies {
                &&& after.contains_key(self.known()[j].name@)
                &&& after[self.known()[j].name@].generation == self.known()[j].latest
                &&& reflects(after[self.known()[j].name@], self.raw(), self.known()[j].name@)
            } by {
                assert(!Set::<Seq<char>>::empty().contains(self.known()[j].name@));
                if j < k {
                    assert(self.known()[j].name@ != self.known()[k as int].name@);
                } else if j > k {
                    assert(self.known()[k as int].name@ != self.known()[j].name@);
                }
            }
        }
        Ok((outcome, errors))
    }
}

impl ServiceConfigState {
    /// The generation that the next update takes.
    pub fn next_generation(&self) -> (g: usize)
        ensures
            g == self.generation(),
    {
        self.spec_generation
    }

    /// How many resources the registry holds.
    pub fn resource_count(&self) -> (n: usize)
        ensures
            n == self.raw().len(),
    {
        self.raw_services.len()
    }
}

/// What taking in a change did.
#[derive(Debug)]
pub enum ChangeReport {
    /// The registry has caught up with the cluster: the table is ready.
    Ready,
    /// A resource was taken in.
    Applied(ApplyReport),
    /// A deletion was taken in. `None` where the registry held no such
    /// resource.
    Deleted(Option<ServiceUpdate>),
}

/// The registry together with the routing table that it fills.
#[derive(Debug)]
pub struct K8SConfigService {
    state: ServiceConfigState,
    config: ServiceConfigInner,
}

impl K8SConfigService {
    /// The registry's own state.
    pub closed spec fn state(&self) -> ServiceConfigState {
        self.state
    }

    /// The routing table.
    pub closed spec fn table(&self) -> ServiceConfigInner {
        self.config
    }

    /// The table shows what the registry has seen.
    pub open spec fn wf(&self) -> bool {
        self.state().wf(self.table()@)
    }

    /// A registry that has seen nothing, with an empty table that is not
    /// ready.
    pub fn new() -> (s: K8SConfigService)
        ensures
            s.wf(),
            s.table()@ == crate::service_store::no_services(),
            !s.table().ready,
            s.state().raw() == Seq::<GrcacheService>::empty(),
            s.state().generation() == 0,
    {
        let state = ServiceConfigState::new();
        let config = ServiceConfigInner::new();
        proof {
            assert(state.inv(config@));
        }
        K8SConfigService { state, config }
    }

    /// The routing table, for the proxy to read.
    pub fn config(&self) -> (c: &ServiceConfigInner)
        ensures
            *c == self.table(),
    {
        &self.config
    }

    /// The registry's own state.
    pub fn registry(&self) -> (s: &ServiceConfigState)
        ensures
            *s == self.state(),
    {
        &self.state
    }

    /// Takes in one change of the resources.
    ///
    /// `Ready` marks the table as ready, for good. `Apply` takes in a
    /// resource and `Delete` a deletion, each bringing the services
    /// concerned up to date.
    pub fn on_change(&mut self, dns: &mut Handle, change: ResourceChange) -> (report: ChangeReport)
        requires
            old(self).wf(),
            old(self).state().generation() < usize::MAX - 1,
            old(dns).wf(),
            old(dns).next_id() < u64::MAX - 1,
        ensures
            final(self).wf(),
            final(dns).wf(),
            final(dns).next_id() <= old(dns).next_id() + 2,
            final(self).state().generation() <= old(self).state().generation() + 2,
            old(self).table().ready ==> final(self).table().ready,
            ({
                let before = old(self).state().raw();
                let after = final(self).state().raw();
                let table = final(self).table()@;
                match change {
                    ResourceChange::Ready => {
                        &&& report is Ready
                        &&& final(self).table().ready
                        &&& table == old(self).table()@
                        &&& final(self).state() == old(self).state()
                    },
                    ResourceChange::Apply(object) => {
                        let s = object.spec.service_name@;
                        let generation = old(self).state().generation();
                        &&& report matches ChangeReport::Applied(r)
                        &&& final(self).table().ready == old(self).table().ready
                        &&& raw_after_apply(before, after, object)
                        &&& reports_update(
                            r.update,
                            old(self).table()@,
                            table,
                            after,
                            s,
                            generation as int,
                        )
                        &&& r.previous is Some <==> exists|k: int|
                            0 <= k < before.len() && same_ref(#[trigger] before[k], object)
                                && before[k].spec.service_name@ != s
                        &&& r.previous matches Some(p) ==> {
                            &&& p.service_name@ != s
                            &&& exists|k: int|
                                0 <= k < before.len() && same_ref(#[trigger] before[k], object)
                                    && before[k].spec.service_name@ == p.service_name@
                            &&& reports_update(
                                p,
                                old(self).table()@,
                                table,
                                after,
                                p.service_name@,
                                generation + 1,
                            )
                            &&& others_stay(old(self).table()@, table, s, p.service_name@)
                        }
                        &&& r.previous is None ==> others_stay(old(self).table()@, table, s, s)
                    },
                    ResourceChange::Delete(object_ref) => {
                        &&& report matches ChangeReport::Deleted(r)
                        &&& final(self).table().ready == old(self).table().ready
                        &&& forall|k: int|
                            0 <= k < after.len() ==> !(#[trigger] after[k]).is_named(object_ref)
                        &&& r is None ==> after == before && table == old(self).table()@
                        &&& r matches Some(u) ==> {
                            &&& exists|k: int|
                                0 <= k < before.len() && (#[trigger] before[k]).is_named(object_ref)
                                    && after == before.remove(k) && before[k].spec.service_name@
                                    == u.service_name@
                            &&& reports_update(
                                u,
                                old(self).table()@,
                                table,
                                after,
                                u.service_name@,
                                old(self).state().generation() as int,
                            )
                            &&& others_stay(
                                old(self).table()@,
                                table,
                                u.service_name@,
                                u.service_name@,
                            )
                        }
                    },
                }
            }),
    {
        match change {
            ResourceChange::Ready => {
                self.config.ready = true;
                ChangeReport::Ready
            },
            ResourceChange::Apply(object) => {
                let r = self.state.apply(&mut self.config, dns, object);
                ChangeReport::Applied(r)
            },
            ResourceChange::Delete(object_ref) => {
                let ghost raw0 = self.state.raw();
                let r = self.state.remove(&mut self.config, dns, &object_ref);
                proof {
                    let raw1 = self.state.raw();
                    assert forall|k: int| 0 <= k < raw1.len() implies !(#[trigger] raw1[k]).is_named(
                        object_ref,
                    ) by {
                        if r is Some {
                            let p = choose|p: int|
                                0 <= p < raw0.len() && (#[trigger] raw0[p]).is_named(object_ref)
                                    && raw1 == raw0.remove(p);
                            let bk = if k < p { k } else { k + 1 };
                            assert(raw1[k] == raw0[bk]);
                            if bk < p {
                                assert(!same_ref(raw0[bk], raw0[p]));
                            } else {
                                assert(!same_ref(raw0[p], raw0[bk]));
                            }
                        }
                    }
                }
                ChangeReport::Deleted(r)
            },
        }
    }

    /// Takes in the descriptor set of a fetch that an update asked for.
    ///
    /// A fetch of a service that the registry does not know, or of a
    /// generation above that of the service's last update, is dropped.
    /// Else the spec is built; a descriptor set without the service is an
    /// error and leaves the table as it was. The spec is written to the
    /// table unless the table shows the same generation or a newer one.
    pub fn complete_descriptor_fetch(&mut self, fetch: PendingFetch, descriptor_set: &DescriptorSet) -> (r:
        Result<(UpdateOutcome, Vec<ValidationError>), crate::service::Error>)
        requires
            old(self).wf(),
        ensures
            final(self).wf(),
            final(self).state() == old(self).state(),
            final(self).table().ready == old(self).table().ready,
            ({
                let name = fetch.service_name@;
                let known = old(self).state().known();
                let before = old(self).table()@;
                let after = final(self).table()@;
                let current = exists|k: int|
                    0 <= k < known.len() && (#[trigger] known[k]).name@ == name && fetch.generation
                        <= known[k].latest;
                let found = service_position(
                    descriptor_set.files@,
                    fetch.service.package@,
                    fetch.service.name@,
                );
                if !current {
                    &&& r matches Ok((outcome, errors))
                    &&& outcome == UpdateOutcome::Aborted
                    &&& errors@.len() == 0
                    &&& after == before
                } else {
                    match found {
                        None => {
                            &&& r is Err
                            &&& after == before
                        },
                        Some((f, s)) => {
                            &&& r matches Ok((outcome, errors))
                            &&& reports_ttls(
                                errors@,
                                invalid_ttls(descriptor_set.files@[f].services@[s].methods@),
                            )
                            &&& outcome == UpdateOutcome::Aborted <==> (before.contains_key(name)
                                && before[name].generation >= fetch.generation)
                            &&& outcome == UpdateOutcome::Aborted ==> after == before
                            &&& outcome != UpdateOutcome::Aborted ==> {
                                &&& after.contains_key(name)
                                &&& after == before.insert(name, after[name])
                                &&& loaded_of(after[name], fetch, *descriptor_set)
                            }
                        },
                    }
                }
            }),
    {
        self.state.complete_descriptor_fetch(&mut self.config, fetch, descriptor_set)
    }
}

} // verus!
