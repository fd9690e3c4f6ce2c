//! Readiness: the process is ready once every part that blocks readiness
//! has said that it is ready. Readiness never goes back.

use vstd::prelude::*;

verus! {

/// What the health tracker keeps: for every endpoint whether it still
/// blocks readiness, and whether the process is ready.
#[derive(Debug)]
pub struct State {
    blocking: Vec<bool>,
    ready: bool,
}

/// The health tracker.
#[derive(Debug)]
pub struct Health {
    state: State,
}

/// The handle of a part of the process that can say that it is ready.
#[derive(Debug)]
pub struct HealthEndpoint {
    id: usize,
}

/// The tracker as a value: which endpoints block, and whether the process
/// is ready.
pub struct HealthView {
    pub blocking: Seq<bool>,
    pub ready: bool,
}

/// What can be done to the tracker.
pub enum HealthOp {
    /// An endpoint is added; it blocks readiness or not.
    Add { blocks_ready: bool },
    /// The endpoint of this number says that it is ready, or is dropped.
    Ready { id: int },
}

/// How many endpoints block readiness.
pub open spec fn ready_blocks(blocking: Seq<bool>) -> nat
    decreases blocking.len(),
{
    if blocking.len() == 0 {
        0
    } else if blocking.last() {
        ready_blocks(blocking.drop_last()) + 1
    } else {
        ready_blocks(blocking.drop_last())
    }
}

/// The tracker after `op`.
///
/// An added endpoint is put behind the others. An endpoint that says
/// that it is ready blocks no longer; if it was the last one that
/// blocked, the process is ready. An endpoint that does not block, or
/// has said so before, changes nothing.
pub open spec fn after_op(h: HealthView, op: HealthOp) -> HealthView {
    match op {
        HealthOp::Add { blocks_ready } => HealthView {
            blocking: h.blocking.push(blocks_ready),
            ready: h.ready,
        },
        HealthOp::Ready { id } => if 0 <= id < h.blocking.len() && h.blocking[id] {
            HealthView {
                blocking: h.blocking.update(id, false),
                ready: h.ready || ready_blocks(h.blocking.update(id, false)) == 0,
            }
        } else {
            h
        },
    }
}

/// The tracker after all of `ops`, in order.
pub open spec fn after_ops(h: HealthView, ops: Seq<HealthOp>) -> HealthView
    decreases ops.len(),
{
    if ops.len() == 0 {
        h
    } else {
        after_op(after_ops(h, ops.drop_last()), ops.last())
    }
}

/// How often readiness goes from false to true in the course of `ops`.
pub open spec fn flips(h: HealthView, ops: Seq<HealthOp>) -> nat
    decreases ops.len(),
{
    if ops.len() == 0 {
        0
    } else {
        let before = after_ops(h, ops.drop_last());
        let after = after_op(before, ops.last());
        flips(h, ops.drop_last()) + (if !before.ready && after.ready {
            1nat
        } else {
            0nat
        })
    }
}

/// How often readiness goes from true to false in the course of `ops`.
pub open spec fn reverts(h: HealthView, ops: Seq<HealthOp>) -> nat
    decreases ops.len(),
{
    if ops.len() == 0 {
        0
    } else {
        let before = after_ops(h, ops.drop_last());
        let after = after_op(before, ops.last());
        reverts(h, ops.drop_last()) + (if before.ready && !after.ready {
            1nat
        } else {
            0nat
        })
    }
}

/// Whatever is done to the tracker, readiness goes from false to true at
/// most once and never back; a tracker that is ready stays ready.
pub proof fn lemma_ready_flips_at_most_once(h: HealthView, ops: Seq<HealthOp>)
    ensures
        flips(h, ops) <= 1,
        reverts(h, ops) == 0,
        h.ready ==> after_ops(h, ops).ready && flips(h, ops) == 0,
        flips(h, ops) == 1 ==> after_ops(h, ops).ready,
    decreases ops.len(),
{
    if ops.len() > 0 {
        lemma_ready_flips_at_most_once(h, ops.drop_last());
    }
}

/// Taking one blocker away leaves one blocker fewer.
pub proof fn lemma_ready_blocks_update(blocking: Seq<bool>, id: int)
    requires
        0 <= id < blocking.len(),
        blocking[id],
    ensures
        ready_blocks(blocking.update(id, false)) + 1 == ready_blocks(blocking),
    decreases blocking.len(),
{
    let after = blocking.update(id, false);
    if id == blocking.len() - 1 {
        assert(after.drop_last() =~= blocking.drop_last());
    } else {
        assert(after.drop_last() =~= blocking.drop_last().update(id, false));
        lemma_ready_blocks_update(blocking.drop_last(), id);
    }
}

impl View for Health {
    type V = HealthView;

    closed spec fn view(&self) -> HealthView {
        HealthView { blocking: self.state.blocking@, ready: self.state.ready }
    }
}

impl HealthEndpoint {
    /// The number of the endpoint.
    pub closed spec fn id(&self) -> int {
        self.id as int
    }

    /// Names the endpoint, for diagnostics. The name is not kept.
    pub fn name(&mut self, name: &str)
        ensures
            final(self).id() == old(self).id(),
    {
    }
}

impl Health {
    /// A tracker with one endpoint that blocks readiness: the process is
    /// not ready until that endpoint, and every one added since, has said
    /// that it is ready.
    pub fn new() -> (r: (Health, HealthEndpoint))
        ensures
            r.0@.blocking == seq![true],
            !r.0@.ready,
            r.1.id() == 0,
    {
        let mut blocking: Vec<bool> = Vec::new();
        blocking.push(true);
        (Health { state: State { blocking, ready: false } }, HealthEndpoint { id: 0 })
    }

    /// Adds an endpoint. Tells, besides, whether the endpoint blocks a
    /// readiness that was declared before: the process stays ready, and
    /// the caller may warn.
    pub fn add(&mut self, blocks_ready: bool) -> (r: (HealthEndpoint, bool))
        ensures
            final(self)@ == after_op(old(self)@, HealthOp::Add { blocks_ready }),
            r.0.id() == old(self)@.blocking.len(),
            r.1 == (blocks_ready && ready_blocks(old(self)@.blocking) == 0),
            old(self)@.ready ==> final(self)@.ready,
    {
        let late = blocks_ready && self.count_blocks() == 0;
        let id = self.state.blocking.len();
        self.state.blocking.push(blocks_ready);
        (HealthEndpoint { id }, late)
    }

    /// How many endpoints block readiness.
    pub fn count_blocks(&self) -> (n: usize)
        ensures
            n == ready_blocks(self@.blocking),
    {
        let mut n: usize = 0;
        let mut i: usize = 0;
        proof {
            assert(self.state.blocking@.subrange(0, 0) =~= Seq::<bool>::empty());
        }
        while i < self.state.blocking.len()
            invariant
                i <= self.state.blocking.len(),
                n <= i,
                n == ready_blocks(self.state.blocking@.subrange(0, i as int)),
            decreases self.state.blocking.len() - i,
        {
            proof {
                assert(self.state.blocking@.subrange(0, i + 1).drop_last()
                    =~= self.state.blocking@.subrange(0, i as int));
            }
            if self.state.blocking[i] {
                n += 1;
            }
            i += 1;
        }
        proof {
            assert(self.state.blocking@.subrange(0, i as int) =~= self.state.blocking@);
        }
        n
    }

    /// Whether the process is ready.
    pub fn is_ready(&self) -> (r: bool)
        ensures
            r == self@.ready,
    {
        self.state.ready
    }

    /// Takes in that `endpoint` is ready, or was dropped. Only the first
    /// call for an endpoint counts. When the last endpoint that blocks
    /// has been taken in, the process is ready, for good. Tells whether
    /// this call made the process ready.
    pub fn ready(&mut self, endpoint: &HealthEndpoint) -> (flipped: bool)
        ensures
            final(self)@ == after_op(old(self)@, HealthOp::Ready { id: endpoint.id() }),
            flipped == (!old(self)@.ready && final(self)@.ready),
            old(self)@.ready ==> final(self)@.ready,
    {
        let id = endpoint.id;
        if id < self.state.blocking.len() && self.state.blocking[id] {
            self.state.blocking.set(id, false);
            let was_ready = self.state.ready;
            if self.count_blocks() == 0 {
                self.state.ready = true;
            }
            !was_ready && self.state.ready
        } else {
            false
        }
    }
}

} // verus!
