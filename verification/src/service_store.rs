//! The routing table of the proxy and the registry that fills it from
//! service resources.

use vstd::prelude::*;
use vstd::string::*;
use vstd::utf8::*;
use std::sync::Arc;
use crate::discovery::ServiceBackendsHandle;
use crate::service::ServiceSpec;

verus! {

/// What the proxy knows of one gRPC service.
#[derive(Debug, Clone)]
pub struct ServiceData {
    /// Grows with every update of the service.
    pub generation: usize,
    /// Absent while the service is unloaded.
    pub service_spec: Option<Arc<ServiceSpec>>,
    /// Absent until upstreams are bound. A request can be routed only
    /// where it is present.
    pub load_balancer: Option<Arc<ServiceBackendsHandle>>,
}

/// `papaya::HashMap`: the table in which the services are kept. What it
/// holds is `services_held`.
#[verifier::external_type_specification]
#[verifier::external_body]
#[verifier::reject_recursive_types(K)]
#[verifier::reject_recursive_types(V)]
#[verifier::reject_recursive_types(S)]
pub struct ExPapayaHashMap<K, V, S>(papaya::HashMap<K, V, S>);

/// The table in which the services are kept.
pub type ServiceMap = papaya::HashMap<String, ServiceData>;

/// The services that a routing table holds, by name.
pub uninterp spec fn services_held(m: papaya::HashMap<String, ServiceData>) -> Map<
    Seq<char>,
    ServiceData,
>;

/// The table that holds no service.
pub open spec fn no_services() -> Map<Seq<char>, ServiceData> {
    Map::empty()
}

/// `papaya::HashMap::new`: a table that holds nothing.
#[verifier::external_body]
pub(crate) fn new_service_map() -> (table: ServiceMap)
    ensures
        services_held(table) == no_services(),
{
    papaya::HashMap::new()
}

/// `papaya::HashMapRef::get`, with the value copied out: what the table
/// holds under `name`, if anything.
#[verifier::external_body]
pub(crate) fn service_map_get(m: &papaya::HashMap<String, ServiceData>, name: &str) -> (r: Option<
    ServiceData,
>)
    ensures
        r == (if services_held(*m).contains_key(name@) {
            Some(services_held(*m)[name@])
        } else {
            None
        }),
{
    m.pin().get(name).cloned()
}

/// `papaya::HashMapRef::insert`, on a table that the caller alone holds:
/// afterwards the table holds `data` under `name` and is otherwise as it
/// was.
#[verifier::external_body]
pub(crate) fn service_map_insert(
    m: &mut papaya::HashMap<String, ServiceData>,
    name: String,
    data: ServiceData,
)
    ensures
        services_held(*final(m)) == services_held(*old(m)).insert(name@, data),
{
    m.pin().insert(name, data);
}

/// What an update of the routing table did.
#[derive(Debug, Clone, Copy, PartialEq, Eq, Structural)]
pub enum UpdateOutcome {
    /// The service was not in the table and is now.
    Inserted,
    /// The service was in the table with an older generation and was
    /// replaced.
    Updated,
    /// The table holds the service with the same generation or a newer
    /// one: nothing was changed.
    Aborted,
}

/// The table after an update that is taken only if it is newer: `data` is
/// put under `name` unless the table holds the service with a generation
/// that is not below `data`'s.
pub open spec fn updated_if_newer(
    table: Map<Seq<char>, ServiceData>,
    name: Seq<char>,
    data: ServiceData,
) -> Map<Seq<char>, ServiceData> {
    if table.contains_key(name) && table[name].generation >= data.generation {
        table
    } else {
        table.insert(name, data)
    }
}

/// The routing table that the proxy consults on every request, and
/// whether the registry has caught up with the cluster.
#[derive(Debug)]
pub struct ServiceConfigInner {
    pub ready: bool,
    pub services: papaya::HashMap<String, ServiceData>,
}

impl View for ServiceConfigInner {
    type V = Map<Seq<char>, ServiceData>;

    /// The services of the table, by name.
    open spec fn view(&self) -> Map<Seq<char>, ServiceData> {
        services_held(self.services)
    }
}

impl ServiceConfigInner {
    /// A table without services that is not ready.
    pub fn new() -> (c: ServiceConfigInner)
        ensures
            c@ == Map::<Seq<char>, ServiceData>::empty(),
            !c.ready,
    {
        ServiceConfigInner { ready: false, services: new_service_map() }
    }

    /// What the table holds of the service `name`.
    pub fn get(&self, name: &str) -> (r: Option<ServiceData>)
        ensures
            r == (if self@.contains_key(name@) {
                Some(self@[name@])
            } else {
                None
            }),
    {
        service_map_get(&self.services, name)
    }

    /// Puts `data` under `service_name`, whatever the table held.
    pub fn insert(&mut self, service_name: String, data: ServiceData)
        ensures
            final(self)@ == old(self)@.insert(service_name@, data),
            final(self).ready == old(self).ready,
    {
        service_map_insert(&mut self.services, service_name, data);
    }

    /// Puts `data` under `service_name` if the table does not hold the
    /// service or holds it with an older generation. Where the table holds
    /// the same generation or a newer one, nothing is changed: an update
    /// that arrives late never undoes a later one.
    pub fn update_service_if_newer(&mut self, service_name: String, data: ServiceData) -> (outcome:
        UpdateOutcome)
        ensures
            final(self)@ == updated_if_newer(old(self)@, service_name@, data),
            final(self).ready == old(self).ready,
            outcome == (if !old(self)@.contains_key(service_name@) {
                UpdateOutcome::Inserted
            } else if old(self)@[service_name@].generation < data.generation {
                UpdateOutcome::Updated
            } else {
                UpdateOutcome::Aborted
            }),
    {
        match service_map_get(&self.services, service_name.as_str()) {
            Some(held) => {
                if held.generation < data.generation {
                    service_map_insert(&mut self.services, service_name, data);
                    UpdateOutcome::Updated
                } else {
                    UpdateOutcome::Aborted
                }
            },
            None => {
                service_map_insert(&mut self.services, service_name, data);
                UpdateOutcome::Inserted
            },
        }
    }
}

/// An update that is taken only if it is newer never lowers a generation,
/// and leaves the service with a generation that is not below the
/// update's.
pub proof fn lemma_update_keeps_newest(
    table: Map<Seq<char>, ServiceData>,
    name: Seq<char>,
    data: ServiceData,
)
    ensures
        updated_if_newer(table, name, data).contains_key(name),
        updated_if_newer(table, name, data)[name].generation >= data.generation,
        table.contains_key(name) ==> updated_if_newer(table, name, data)[name].generation
            >= table[name].generation,
        forall|other: Seq<char>|
            other != name ==> (updated_if_newer(table, name, data).contains_key(other)
                <==> table.contains_key(other)) && (table.contains_key(other)
                ==> #[trigger] updated_if_newer(table, name, data)[other] == table[other]),
{
}

/// When a late update of generation `late.generation` and another update of
/// a higher generation race for one service, the table shows a generation
/// that is not below the higher one, in whichever order the two arrive.
pub proof fn lemma_late_update_never_wins(
    table: Map<Seq<char>, ServiceData>,
    name: Seq<char>,
    late: ServiceData,
    newer: ServiceData,
)
    requires
        late.generation < newer.generation,
    ensures
        updated_if_newer(updated_if_newer(table, name, late), name, newer)[name].generation
            >= newer.generation,
        updated_if_newer(updated_if_newer(table, name, newer), name, late)[name].generation
            >= newer.generation,
        updated_if_newer(updated_if_newer(table, name, newer), name, late) == updated_if_newer(
            table,
            name,
            newer,
        ),
{
}

} // verus!
