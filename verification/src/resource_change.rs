//! From the events of a resource watch to the changes that matter.
//!
//! A watch reports every resource of a snapshot whenever it (re)connects,
//! changed or not, and reports no deletion that it missed. The tracker
//! remembers the version of every resource it has passed on, so that a
//! snapshot gives only the resources that are new or changed, followed by
//! a deletion for each resource that the snapshot no longer holds and by
//! one `Ready`.

use vstd::prelude::*;
use vstd::string::*;
use crate::crd::{GrcacheService, ObjectRef};
use crate::registry::{resource_is_named, same_ref};
use crate::text::str_eq;

verus! {

/// What a watch reports.
#[derive(Debug)]
pub enum WatchEvent {
    /// A snapshot begins.
    Init,
    /// A resource of the snapshot.
    InitApply(GrcacheService),
    /// The snapshot is complete.
    InitDone,
    /// A resource was added or changed.
    Apply(GrcacheService),
    /// A resource was deleted.
    Delete(GrcacheService),
}

/// A change that the registry takes in.
#[derive(Debug)]
pub enum ResourceChange {
    /// All resources of a snapshot were passed on.
    Ready,
    /// The resource is new or has changed.
    Apply(GrcacheService),
    /// The resource of this namespace and name is gone.
    Delete(ObjectRef),
}

/// What the tracker remembers of a resource that it has passed on.
#[derive(Debug)]
pub struct Remembered {
    pub namespace: Option<String>,
    pub name: String,
    /// The version that was passed on last.
    pub version: String,
    /// Whether the snapshot that is under way has reported the resource.
    pub present: bool,
}

impl Remembered {
    /// Whether this is what is remembered of the resource `r`.
    pub open spec fn tracks(self, r: GrcacheService) -> bool {
        self.name@ == r.name@ && match (self.namespace, r.namespace) {
            (Some(a), Some(b)) => a@ == b@,
            (None, None) => true,
            _ => false,
        }
    }

    /// Whether `r` is this resource's namespace and name.
    pub open spec fn is_ref(self, r: ObjectRef) -> bool {
        self.name@ == r.name@ && match (self.namespace, r.namespace) {
            (Some(a), Some(b)) => a@ == b@,
            (None, None) => true,
            _ => false,
        }
    }
}

/// Whether no two of `objects` are for one namespace and name.
pub open spec fn distinct_records(objects: Seq<Remembered>) -> bool {
    forall|i: int, j: int|
        0 <= i < j < objects.len() ==> !((#[trigger] objects[i]).name@ == (#[trigger] objects[j]).name@
            && match (objects[i].namespace, objects[j].namespace) {
            (Some(a), Some(b)) => a@ == b@,
            (None, None) => true,
            _ => false,
        })
}

/// The resources of `objects` that the snapshot has not reported, in
/// order.
pub open spec fn absent(objects: Seq<Remembered>) -> Seq<Remembered>
    decreases objects.len(),
{
    if objects.len() == 0 {
        seq![]
    } else if objects.last().present {
        absent(objects.drop_last())
    } else {
        absent(objects.drop_last()).push(objects.last())
    }
}

/// The resources of `objects` that the snapshot has reported, in order,
/// with the mark taken off.
pub open spec fn kept(objects: Seq<Remembered>) -> Seq<Remembered>
    decreases objects.len(),
{
    if objects.len() == 0 {
        seq![]
    } else if objects.last().present {
        kept(objects.drop_last()).push(
            Remembered {
                namespace: objects.last().namespace,
                name: objects.last().name,
                version: objects.last().version,
                present: false,
            },
        )
    } else {
        kept(objects.drop_last())
    }
}

/// Whether `changes` is one deletion for each of `gone`, in order,
/// followed by `Ready`.
pub open spec fn deletes_then_ready(changes: Seq<ResourceChange>, gone: Seq<Remembered>) -> bool {
    &&& changes.len() == gone.len() + 1
    &&& changes.last() is Ready
    &&& forall|i: int|
        0 <= i < gone.len() ==> (#[trigger] changes[i] matches ResourceChange::Delete(r)
            && gone[i].is_ref(r))
}

/// Whether `after` is `before` with the resource `r` noted at version
/// `r.resource_version`: the record of `r` is replaced, or a new one is
/// put behind the others; all other records stay. `mark` tells whether
/// the record is marked as reported by the snapshot.
pub open spec fn noted(before: Seq<Remembered>, after: Seq<Remembered>, r: GrcacheService, mark: bool) -> bool {
    exists|k: int|
        {
            &&& 0 <= k <= before.len()
            &&& after.len() == (if k < before.len() {
                before.len()
            } else {
                before.len() + 1
            })
            &&& k < before.len() ==> before[k].tracks(r)
            &&& k == before.len() ==> forall|j: int|
                0 <= j < before.len() ==> !(#[trigger] before[j]).tracks(r)
            &&& (#[trigger] after[k]).tracks(r)
            &&& after[k].version@ == r.resource_version@
            &&& after[k].present == (mark || (k < before.len() && before[k].present))
            &&& forall|j: int| 0 <= j < before.len() && j != k ==> #[trigger] after[j] == before[j]
        }
}

/// Whether `objects` remembers the resource `r` at the version that `r`
/// has.
pub open spec fn is_current(objects: Seq<Remembered>, r: GrcacheService) -> bool {
    exists|k: int|
        0 <= k < objects.len() && (#[trigger] objects[k]).tracks(r) && objects[k].version@
            == r.resource_version@
}

/// Tells which events of a watch are changes.
#[derive(Debug)]
pub struct ChangeTracker {
    objects: Vec<Remembered>,
}

impl View for ChangeTracker {
    type V = Seq<Remembered>;

    /// What the tracker remembers.
    closed spec fn view(&self) -> Seq<Remembered> {
        self.objects@
    }
}

impl ChangeTracker {
    /// No two records are for one namespace and name.
    pub open spec fn wf(&self) -> bool {
        distinct_records(self@)
    }

    /// A tracker that has passed on nothing.
    pub fn new() -> (t: ChangeTracker)
        ensures
            t.wf(),
            t@ == Seq::<Remembered>::empty(),
    {
        ChangeTracker { objects: Vec::new() }
    }

    /// The position of the record of the resource `r`.
    fn position(&self, r: &GrcacheService) -> (p: Option<usize>)
        ensures
            match p {
                Some(k) => k < self@.len() && self@[k as int].tracks(*r),
                None => forall|j: int| 0 <= j < self@.len() ==> !(#[trigger] self@[j]).tracks(*r),
            },
    {
        let mut k: usize = 0;
        while k < self.objects.len()
            invariant
                k <= self.objects.len(),
                forall|j: int| 0 <= j < k ==> !(#[trigger] self.objects@[j]).tracks(*r),
            decreases self.objects.len() - k,
        {
            let o = &self.objects[k];
            let same_ns = match (&o.namespace, &r.namespace) {
                (None, None) => true,
                (Some(a), Some(b)) => str_eq(a.as_str(), b.as_str()),
                _ => false,
            };
            if same_ns && str_eq(o.name.as_str(), r.name.as_str()) {
                return Some(k);
            }
            k += 1;
        }
        None
    }

    /// Notes the resource `r` at its version. Tells whether the resource
    /// is new or its version has changed.
    fn note(&mut self, r: &GrcacheService, mark: bool) -> (changed: bool)
        requires
            old(self).wf(),
        ensures
            final(self).wf(),
            changed == !is_current(old(self)@, *r),
            noted(old(self)@, final(self)@, *r, mark),
    {
        let ghost before = self@;
        match self.position(r) {
            Some(k) => {
                let same = str_eq(self.objects[k].version.as_str(), r.resource_version.as_str());
                let present = mark || self.objects[k].present;
                let record = Remembered {
                    namespace: match &r.namespace {
                        Some(n) => Some(n.clone()),
                        None => None,
                    },
                    name: r.name.clone(),
                    version: r.resource_version.clone(),
                    present,
                };
                self.objects.set(k, record);
                proof {
                    let after = self@;
                    assert(after[k as int].tracks(*r));
                    assert forall|i: int, j: int| 0 <= i < j < after.len() implies !((
                    #[trigger] after[i]).name@ == (#[trigger] after[j]).name@ && match (
                        after[i].namespace,
                        after[j].namespace,
                    ) {
                        (Some(a), Some(b)) => a@ == b@,
                        (None, None) => true,
                        _ => false,
                    }) by {
                        if i != k {
                            assert(after[i] == before[i]);
                        }
                        if j != k {
                            assert(after[j] == before[j]);
                        }
                        if i == k {
                            assert(before[k as int].tracks(*r));
                        }
                        if j == k {
                            assert(before[k as int].tracks(*r));
                        }
                    }
                    if same {
                        assert(before[k as int].tracks(*r) && before[k as int].version@
                            == r.resource_version@);
                    } else {
                        assert forall|j: int|
                            0 <= j < before.len() && (#[trigger] before[j]).tracks(*r)
                                implies before[j].version@ != r.resource_version@ by {
                            if j < k {
                                assert(!(before[j].name@ == before[k as int].name@ && match (
                                    before[j].namespace,
                                    before[k as int].namespace,
                                ) {
                                    (Some(a), Some(b)) => a@ == b@,
                                    (None, None) => true,
                                    _ => false,
                                }));
                            } else if j > k {
                                assert(!(before[k as int].name@ == before[j].name@ && match (
                                    before[k as int].namespace,
                                    before[j].namespace,
                                ) {
                                    (Some(a), Some(b)) => a@ == b@,
                                    (None, None) => true,
                                    _ => false,
                                }));
                            }
                        }
                    }
                }
                !same
            },
            None => {
                let record = Remembered {
                    namespace: match &r.namespace {
                        Some(n) => Some(n.clone()),
                        None => None,
                    },
                    name: r.name.clone(),
                    version: r.resource_version.clone(),
                    present: mark,
                };
                self.objects.push(record);
                proof {
                    let after = self@;
                    let k = before.len() as int;
                    assert(after[k].tracks(*r));
                    assert forall|j: int| 0 <= j < before.len() implies #[trigger] after[j]
                        == before[j] by {}
                    assert forall|i: int, j: int| 0 <= i < j < after.len() implies !((
                    #[trigger] after[i]).name@ == (#[trigger] after[j]).name@ && match (
                        after[i].namespace,
                        after[j].namespace,
                    ) {
                        (Some(a), Some(b)) => a@ == b@,
                        (None, None) => true,
                        _ => false,
                    }) by {
                        assert(after[i] == before[i]);
                        if j < before.len() {
                            assert(after[j] == before[j]);
                        } else {
                            assert(!before[i].tracks(*r));
                        }
                    }
                }
                true
            },
        }
    }

    /// Takes in one event of the watch and gives the changes that it
    /// amounts to, in order.
    ///
    /// `Init` takes the marks off and gives nothing. `InitApply` marks the
    /// resource and gives it if it is new or its version has changed.
    /// `InitDone` forgets every resource that is not marked, gives a
    /// deletion for each of them and then `Ready`. `Apply` gives the
    /// resource if it is new or its version has changed. `Delete` forgets
    /// the resource and always gives its deletion.
    pub fn step(&mut self, event: WatchEvent) -> (changes: Vec<ResourceChange>)
        requires
            old(self).wf(),
        ensures
            final(self).wf(),
            match event {
                WatchEvent::Init => {
                    &&& changes@.len() == 0
                    &&& final(self)@.len() == old(self)@.len()
                    &&& forall|i: int|
                        0 <= i < old(self)@.len() ==> (#[trigger] final(self)@[i]) == (Remembered {
                            namespace: old(self)@[i].namespace,
                            name: old(self)@[i].name,
                            version: old(self)@[i].version,
                            present: false,
                        })
                },
                WatchEvent::InitApply(r) => {
                    &&& noted(old(self)@, final(self)@, r, true)
                    &&& if is_current(old(self)@, r) {
                        changes@.len() == 0
                    } else {
                        changes@.len() == 1 && changes@[0] == ResourceChange::Apply(r)
                    }
                },
                WatchEvent::InitDone => {
                    &&& final(self)@ == kept(old(self)@)
                    &&& deletes_then_ready(changes@, absent(old(self)@))
                },
                WatchEvent::Apply(r) => {
                    &&& noted(old(self)@, final(self)@, r, false)
                    &&& if is_current(old(self)@, r) {
                        changes@.len() == 0
                    } else {
                        changes@.len() == 1 && changes@[0] == ResourceChange::Apply(r)
                    }
                },
                WatchEvent::Delete(r) => {
                    &&& changes@.len() == 1
                    &&& changes@[0] matches ResourceChange::Delete(key)
                    &&& r.is_named(key)
                    &&& forall|i: int| 0 <= i < final(self)@.len() ==> !(#[trigger] final(self)@[i]).tracks(r)
                    &&& (exists|k: int|
                        0 <= k < old(self)@.len() && (#[trigger] old(self)@[k]).tracks(r)
                            && final(self)@ == old(self)@.remove(k)) || final(self)@ == old(
                        self,
                    )@
                },
            },
    {
        let ghost before = self@;
        let mut changes: Vec<ResourceChange> = Vec::new();
        match event {
            WatchEvent::Init => {
                let mut i: usize = 0;
                while i < self.objects.len()
                    invariant
                        i <= self.objects.len(),
                        self@.len() == before.len(),
                        forall|j: int|
                            0 <= j < i ==> (#[trigger] self@[j]) == (Remembered {
                                namespace: before[j].namespace,
                                name: before[j].name,
                                version: before[j].version,
                                present: false,
                            }),
                        forall|j: int| i <= j < before.len() ==> #[trigger] self@[j] == before[j],
                    decreases self.objects.len() - i,
                {
                    let o = &self.objects[i];
                    let record = Remembered {
                        namespace: match &o.namespace {
                            Some(n) => Some(n.clone()),
                            None => None,
                        },
                        name: o.name.clone(),
                        version: o.version.clone(),
                        present: false,
                    };
                    self.objects.set(i, record);
                    i += 1;
                }
                proof {
                    let after = self@;
                    assert forall|i: int, j: int| 0 <= i < j < after.len() implies !((
                    #[trigger] after[i]).name@ == (#[trigger] after[j]).name@ && match (
                        after[i].namespace,
                        after[j].namespace,
                    ) {
                        (Some(a), Some(b)) => a@ == b@,
                        (None, None) => true,
                        _ => false,
                    }) by {
                        assert(after[i].name == before[i].name);
                        assert(after[j].name == before[j].name);
                    }
                }
            },
            WatchEvent::InitApply(r) => {
                if self.note(&r, true) {
                    changes.push(ResourceChange::Apply(r));
                }
            },
            WatchEvent::InitDone => {
                let mut keep: Vec<Remembered> = Vec::new();
                let ghost mut gone: Seq<Remembered> = seq![];
                let n = self.objects.len();
                let mut i: usize = 0;
                proof {
                    assert(before.subrange(0, 0) =~= Seq::<Remembered>::empty());
                }
                while i < n
                    invariant
                        i <= n,
                        n == self.objects.len(),
                        self@ == before,
                        keep@ == kept(before.subrange(0, i as int)),
                        gone == absent(before.subrange(0, i as int)),
                        changes@.len() == gone.len(),
                        forall|j: int|
                            0 <= j < gone.len() ==> (#[trigger] changes@[j] matches ResourceChange::Delete(
                                r,
                            ) && gone[j].is_ref(r)),
                    decreases n - i,
                {
                    let o = &self.objects[i];
                    proof {
                        assert(before.subrange(0, i + 1).drop_last() =~= before.subrange(0, i as int));
                        assert(before.subrange(0, i + 1).last() == before[i as int]);
                    }
                    if o.present {
                        keep.push(
                            Remembered {
                                namespace: match &o.namespace {
                                    Some(n) => Some(n.clone()),
                                    None => None,
                                },
                                name: o.name.clone(),
                                version: o.version.clone(),
                                present: false,
                            },
                        );
                    } else {
                        let ghost changes_before = changes@;
                        changes.push(
                            ResourceChange::Delete(
                                ObjectRef {
                                    namespace: match &o.namespace {
                                        Some(n) => Some(n.clone()),
                                        None => None,
                                    },
                                    name: o.name.clone(),
                                },
                            ),
                        );
                        proof {
                            let gone_before = gone;
                            gone = gone.push(before[i as int]);
                            assert forall|j: int| 0 <= j < gone.len() implies (
                            #[trigger] changes@[j] matches ResourceChange::Delete(r) && gone[j].is_ref(
                                r,
                            )) by {
                                if j < gone_before.len() {
                                    assert(changes@[j] == changes_before[j]);
                                }
                            }
                        }
                    }
                    i += 1;
                }
                proof {
                    assert(before.subrange(0, i as int) =~= before);
                    lemma_kept_distinct(before);
                }
                let ghost changes_before = changes@;
                changes.push(ResourceChange::Ready);
                proof {
                    assert forall|j: int| 0 <= j < gone.len() implies (
                    #[trigger] changes@[j] matches ResourceChange::Delete(r) && gone[j].is_ref(r)) by {
                        assert(changes@[j] == changes_before[j]);
                    }
                }
                self.objects = keep;
            },
            WatchEvent::Apply(r) => {
                if self.note(&r, false) {
                    changes.push(ResourceChange::Apply(r));
                }
            },
            WatchEvent::Delete(r) => {
                match self.position(&r) {
                    Some(k) => {
                        let removed = self.objects.remove(k);
                        proof {
                            let after = self@;
                            assert(after =~= before.remove(k as int));
                            assert forall|i: int| 0 <= i < after.len() implies !(
                            #[trigger] after[i]).tracks(r) by {
                                let bi = if i < k { i } else { i + 1 };
                                assert(after[i] == before[bi]);
                                if bi < k {
                                    assert(!(before[bi].name@ == before[k as int].name@ && match (
                                        before[bi].namespace,
                                        before[k as int].namespace,
                                    ) {
                                        (Some(a), Some(b)) => a@ == b@,
                                        (None, None) => true,
                                        _ => false,
                                    }));
                                } else {
                                    assert(!(before[k as int].name@ == before[bi].name@ && match (
                                        before[k as int].namespace,
                                        before[bi].namespace,
                                    ) {
                                        (Some(a), Some(b)) => a@ == b@,
                                        (None, None) => true,
                                        _ => false,
                                    }));
                                }
                            }
                            assert forall|i: int, j: int| 0 <= i < j < after.len() implies !((
                            #[trigger] after[i]).name@ == (#[trigger] after[j]).name@ && match (
                                after[i].namespace,
                                after[j].namespace,
                            ) {
                                (Some(a), Some(b)) => a@ == b@,
                                (None, None) => true,
                                _ => false,
                            }) by {
                                let bi = if i < k { i } else { i + 1 };
                                let bj = if j < k { j } else { j + 1 };
                                assert(after[i] == before[bi]);
                                assert(after[j] == before[bj]);
                            }
                        }
                    },
                    None => {},
                }
                changes.push(ResourceChange::Delete(r.object_ref()));
            },
        }
        changes
    }
}

/// The records that a snapshot keeps are records of distinct resources.
pub proof fn lemma_kept_distinct(objects: Seq<Remembered>)
    requires
        distinct_records(objects),
    ensures
        distinct_records(kept(objects)),
        forall|i: int|
            0 <= i < kept(objects).len() ==> exists|j: int|
                0 <= j < objects.len() && (#[trigger] kept(objects)[i]).name == objects[j].name
                    && kept(objects)[i].namespace == objects[j].namespace,
    decreases objects.len(),
{
    if objects.len() > 0 {
        let head = objects.drop_last();
        assert(distinct_records(head)) by {
            assert forall|i: int, j: int| 0 <= i < j < head.len() implies !((
            #[trigger] head[i]).name@ == (#[trigger] head[j]).name@ && match (
                head[i].namespace,
                head[j].namespace,
            ) {
                (Some(a), Some(b)) => a@ == b@,
                (None, None) => true,
                _ => false,
            }) by {
                assert(head[i] == objects[i]);
                assert(head[j] == objects[j]);
            }
        }
        lemma_kept_distinct(head);
        let k = kept(objects);
        let kh = kept(head);
        assert forall|i: int| 0 <= i < k.len() implies exists|j: int|
            0 <= j < objects.len() && (#[trigger] k[i]).name == objects[j].name && k[i].namespace
                == objects[j].namespace by {
            if i < kh.len() {
                assert(k[i] == kh[i]);
                let j = choose|j: int|
                    0 <= j < head.len() && kh[i].name == head[j].name && kh[i].namespace
                        == head[j].namespace;
                assert(head[j] == objects[j]);
            } else {
                assert(k[i].name == objects[objects.len() - 1].name);
            }
        }
        assert forall|i: int, j: int| 0 <= i < j < k.len() implies !((#[trigger] k[i]).name@ == (
        #[trigger] k[j]).name@ && match (k[i].namespace, k[j].namespace) {
            (Some(a), Some(b)) => a@ == b@,
            (None, None) => true,
            _ => false,
        }) by {
            if j < kh.len() {
                assert(k[i] == kh[i]);
                assert(k[j] == kh[j]);
            } else {
                assert(k[i] == kh[i]);
                let m = choose|m: int|
                    0 <= m < head.len() && kh[i].name == head[m].name && kh[i].namespace
                        == head[m].namespace;
                assert(head[m] == objects[m]);
                assert(!((objects[m]).name@ == (objects[objects.len() - 1]).name@ && match (
                    objects[m].namespace,
                    objects[objects.len() - 1].namespace,
                ) {
                    (Some(a), Some(b)) => a@ == b@,
                    (None, None) => true,
                    _ => false,
                }));
            }
        }
    }
}

} // verus!
