//! Controller-side scheduling state for the node fleet: per-node slot
//! accounting, node liveness, and the worker table.
//!
//! The central invariant, kept by every operation here, is that for every
//! node `free_slots` plus the sum of its scheduled slots equals the node's
//! capacity.

use vstd::prelude::*;

use crate::ids::{NodeId, WorkerId};
use crate::rest::RpcCode;

verus! {

/// A node whose last heartbeat is older than this many milliseconds is
/// evicted before placement.
pub const HEARTBEAT_WINDOW_MS: u64 = 30000;

/// Controller-local view of one registered node.
pub struct NodeStatus {
    pub id: NodeId,
    /// The number of task slots the node registered with.
    pub capacity: usize,
    /// Slots not held by any worker.
    pub free_slots: usize,
    /// Slots held by each worker placed on this node; at most one entry per
    /// worker.
    pub scheduled_slots: Vec<(WorkerId, usize)>,
    /// Address of the node's agent.
    pub addr: String,
    /// Monotonic timestamp, in milliseconds, of the node's last heartbeat.
    pub last_heartbeat: u64,
}

/// The sum of the slot counts in a scheduled-slots table.
pub open spec fn sum_scheduled(s: Seq<(WorkerId, usize)>) -> int
    decreases s.len(),
{
    if s.len() == 0 {
        0
    } else {
        sum_scheduled(s.drop_last()) + s.last().1
    }
}

/// Whether a scheduled-slots table has an entry for the worker.
pub open spec fn sched_contains(s: Seq<(WorkerId, usize)>, w: WorkerId) -> bool {
    exists|i: int| 0 <= i < s.len() && s[i].0 == w
}

/// Entries of a scheduled-slots table name distinct workers.
pub open spec fn sched_unique(s: Seq<(WorkerId, usize)>) -> bool {
    forall|i: int, j: int| 0 <= i < j < s.len() ==> s[i].0 != s[j].0
}

proof fn lemma_sum_scheduled_push(s: Seq<(WorkerId, usize)>, p: (WorkerId, usize))
    ensures
        sum_scheduled(s.push(p)) == sum_scheduled(s) + p.1,
{
    assert(s.push(p).drop_last() =~= s);
}

pub proof fn lemma_sum_scheduled_nonneg(s: Seq<(WorkerId, usize)>)
    ensures
        sum_scheduled(s) >= 0,
    decreases s.len(),
{
    if s.len() > 0 {
        lemma_sum_scheduled_nonneg(s.drop_last());
    }
}

/// Removing one entry takes exactly its slots out of the sum.
proof fn lemma_sum_scheduled_remove(s: Seq<(WorkerId, usize)>, i: int)
    requires
        0 <= i < s.len(),
    ensures
        sum_scheduled(s.remove(i)) == sum_scheduled(s) - s[i].1,
    decreases s.len(),
{
    if i == s.len() - 1 {
        assert(s.remove(i) =~= s.drop_last());
    } else {
        assert(s.remove(i).drop_last() =~= s.drop_last().remove(i));
        lemma_sum_scheduled_remove(s.drop_last(), i);
    }
}

/// An entry's slots are bounded by the sum of the whole table.
proof fn lemma_sum_scheduled_bound(s: Seq<(WorkerId, usize)>, i: int)
    requires
        0 <= i < s.len(),
    ensures
        s[i].1 <= sum_scheduled(s),
{
    lemma_sum_scheduled_remove(s, i);
    lemma_sum_scheduled_nonneg(s.remove(i));
}

impl NodeStatus {
    /// Slot accounting is closed: free slots plus scheduled slots equal the
    /// capacity, and no worker appears twice.
    pub open spec fn wf(self) -> bool {
        &&& self.free_slots + sum_scheduled(self.scheduled_slots@) == self.capacity
        &&& sched_unique(self.scheduled_slots@)
    }

    /// The slots recorded for a worker on this node, if any.
    pub open spec fn spec_slots_of(self, w: WorkerId) -> Option<usize> {
        if sched_contains(self.scheduled_slots@, w) {
            let i = choose|i: int|
                0 <= i < self.scheduled_slots@.len() && self.scheduled_slots@[i].0 == w;
            Some(self.scheduled_slots@[i].1)
        } else {
            None
        }
    }

    /// A fresh node: all capacity free, nothing scheduled.
    pub fn new(id: NodeId, slots: usize, addr: String, now: u64) -> (r: NodeStatus)
        ensures
            r.wf(),
            r.id == id,
            r.capacity == slots,
            r.free_slots == slots,
            r.scheduled_slots@.len() == 0,
            r.addr@ == addr@,
            r.last_heartbeat == now,
    {
        NodeStatus {
            id,
            capacity: slots,
            free_slots: slots,
            scheduled_slots: Vec::new(),
            addr,
            last_heartbeat: now,
        }
    }

    /// Index of the worker's entry in the scheduled-slots table.
    fn index_of_worker(&self, w: WorkerId) -> (r: Option<usize>)
        requires
            sched_unique(self.scheduled_slots@),
        ensures
            match r {
                Some(i) => i < self.scheduled_slots@.len() && self.scheduled_slots@[i as int].0
                    == w,
                None => !sched_contains(self.scheduled_slots@, w),
            },
    {
        let mut i: usize = 0;
        while i < self.scheduled_slots.len()
            invariant
                i <= self.scheduled_slots@.len(),
                forall|j: int| 0 <= j < i ==> self.scheduled_slots@[j].0 != w,
            decreases self.scheduled_slots@.len() - i,
        {
            if self.scheduled_slots[i].0 == w {
                return Some(i);
            }
            i = i + 1;
        }
        None
    }

    /// Records that a worker has taken slots from this node. The caller must
    /// have checked that the node has the slots free and does not already
    /// hold slots for this worker: scheduling more slots than are free is a
    /// protocol violation.
    pub fn take_slots(&mut self, worker: WorkerId, slots: usize)
        requires
            old(self).wf(),
            slots <= old(self).free_slots,
            !sched_contains(old(self).scheduled_slots@, worker),
        ensures
            final(self).wf(),
            final(self).id == old(self).id,
            final(self).capacity == old(self).capacity,
            final(self).addr == old(self).addr,
            final(self).last_heartbeat == old(self).last_heartbeat,
            final(self).free_slots == old(self).free_slots - slots,
            final(self).scheduled_slots@ == old(self).scheduled_slots@.push((worker, slots)),
    {
        proof {
            lemma_sum_scheduled_push(self.scheduled_slots@, (worker, slots));
        }
        self.free_slots = self.free_slots - slots;
        self.scheduled_slots.push((worker, slots));
    }

    /// Releases the slots a finished worker held. The count must match what
    /// was recorded when the slots were taken; a mismatch is a protocol
    /// violation between controller and node. A release for a worker this
    /// node does not know is ignored.
    pub fn release_slots(&mut self, worker: WorkerId, slots: usize)
        requires
            old(self).wf(),
            sched_contains(old(self).scheduled_slots@, worker) ==> old(self).spec_slots_of(worker)
                == Some(slots),
        ensures
            final(self).wf(),
            final(self).id == old(self).id,
            final(self).capacity == old(self).capacity,
            final(self).addr == old(self).addr,
            final(self).last_heartbeat == old(self).last_heartbeat,
            if sched_contains(old(self).scheduled_slots@, worker) {
                &&& final(self).free_slots == old(self).free_slots + slots
                &&& exists|i: int|
                    {
                        &&& 0 <= i < old(self).scheduled_slots@.len()
                        &&& old(self).scheduled_slots@[i] == (worker, slots)
                        &&& final(self).scheduled_slots@ == old(self).scheduled_slots@.remove(i)
                    }
            } else {
                *final(self) == *old(self)
            },
    {
        match self.index_of_worker(worker) {
            Some(i) => {
                proof {
                    let s = self.scheduled_slots@;
                    assert(s[i as int].1 == slots);
                    lemma_sum_scheduled_remove(s, i as int);
                    lemma_sum_scheduled_bound(s, i as int);
                    lemma_sum_scheduled_nonneg(s.remove(i as int));
                }
                self.scheduled_slots.remove(i);
                self.free_slots = self.free_slots + slots;
            },
            None => {},
        }
    }
}

/// Law: for every node of a well-formed scheduling state, the free slots
/// plus the sum of the scheduled slots equal the node's capacity.
pub proof fn lemma_slot_accounting(state: NodeSchedulerState, i: int)
    requires
        state.wf(),
        0 <= i < state.nodes@.len(),
    ensures
        state.nodes@[i].free_slots + sum_scheduled(state.nodes@[i].scheduled_slots@)
            == state.nodes@[i].capacity,
{
    assert(state.nodes@[i].wf());
}

/// What a node agent answered to a stop-worker request.
#[derive(Clone, Copy, Debug, PartialEq, Eq, Structural)]
pub enum StopReply {
    /// The agent accepted the stop.
    Accepted,
    /// The agent does not know the worker.
    NotFound,
    /// The agent tried to kill the worker and could not.
    StopFailed,
}

/// Why stopping a worker failed.
#[derive(Clone, Copy, Debug, PartialEq, Eq, Structural)]
pub enum StopError {
    /// The peer did not know the worker and the stop was not forced; this
    /// indicates drift between controller and node.
    NotFoundWithoutForce,
    /// The peer could not kill the worker; fatal for the whole stop
    /// operation.
    StopFailed,
}

/// Decides what one stop attempt means. An unreachable peer (no reply) is
/// treated as stopped: such a worker cannot be holding its slot usefully. A
/// peer that does not know the worker is an error, unless the stop is
/// forced. A peer that could not kill the worker fails the whole operation.
pub fn stop_worker_decision(reply: Option<StopReply>, force: bool) -> (r: Result<(), StopError>)
    ensures
        match reply {
            None => r is Ok,
            Some(StopReply::Accepted) => r is Ok,
            Some(StopReply::NotFound) => if force {
                r is Ok
            } else {
                r == Result::<(), StopError>::Err(StopError::NotFoundWithoutForce)
            },
            Some(StopReply::StopFailed) => r == Result::<(), StopError>::Err(
                StopError::StopFailed,
            ),
        },
{
    match reply {
        None => Ok(()),
        Some(StopReply::Accepted) => Ok(()),
        Some(StopReply::NotFound) => {
            if force {
                Ok(())
            } else {
                Err(StopError::NotFoundWithoutForce)
            }
        },
        Some(StopReply::StopFailed) => Err(StopError::StopFailed),
    }
}

/// Controller-local record of one placed worker.
pub struct NodeWorker {
    pub job_id: String,
    pub node_id: NodeId,
    pub run_id: i64,
    pub running: bool,
}

/// The whole scheduling state of the node-fleet scheduler: the registered
/// nodes and the worker table.
pub struct NodeSchedulerState {
    pub nodes: Vec<NodeStatus>,
    pub workers: Vec<(WorkerId, NodeWorker)>,
}

/// The sum of the capacities of a fleet of nodes.
pub open spec fn total_capacity(s: Seq<NodeStatus>) -> int
    decreases s.len(),
{
    if s.len() == 0 {
        0
    } else {
        total_capacity(s.drop_last()) + s.last().capacity
    }
}

/// The sum of the free slots of a fleet of nodes.
pub open spec fn total_free(s: Seq<NodeStatus>) -> int
    decreases s.len(),
{
    if s.len() == 0 {
        0
    } else {
        total_free(s.drop_last()) + s.last().free_slots
    }
}

/// Fleets whose nodes have the same capacities have the same total capacity.
pub proof fn lemma_total_capacity_pointwise(a: Seq<NodeStatus>, b: Seq<NodeStatus>)
    requires
        a.len() == b.len(),
        forall|i: int| 0 <= i < a.len() ==> a[i].capacity == b[i].capacity,
    ensures
        total_capacity(a) == total_capacity(b),
    decreases a.len(),
{
    if a.len() > 0 {
        lemma_total_capacity_pointwise(a.drop_last(), b.drop_last());
    }
}

/// Fleets whose nodes have the same free slots have the same total.
pub proof fn lemma_total_free_pointwise(a: Seq<NodeStatus>, b: Seq<NodeStatus>)
    requires
        a.len() == b.len(),
        forall|i: int| 0 <= i < a.len() ==> a[i].free_slots == b[i].free_slots,
    ensures
        total_free(a) == total_free(b),
    decreases a.len(),
{
    if a.len() > 0 {
        lemma_total_free_pointwise(a.drop_last(), b.drop_last());
    }
}

/// The nodes whose heartbeat is at or after the cutoff, in their original
/// order.
pub open spec fn live_nodes(s: Seq<NodeStatus>, cutoff: u64) -> Seq<NodeStatus>
    decreases s.len(),
{
    if s.len() == 0 {
        Seq::empty()
    } else {
        let rest = live_nodes(s.drop_last(), cutoff);
        if s.last().last_heartbeat >= cutoff {
            rest.push(s.last())
        } else {
            rest
        }
    }
}

/// Whether `x` occurs in the fleet `s`.
pub open spec fn node_elem_of(x: NodeStatus, s: Seq<NodeStatus>) -> bool {
    exists|j: int| 0 <= j < s.len() && s[j] == x
}

/// A fleet's totals split at any index.
pub proof fn lemma_totals_split(s: Seq<NodeStatus>, i: int)
    requires
        0 <= i <= s.len(),
    ensures
        total_capacity(s) == total_capacity(s.take(i)) + total_capacity(s.skip(i)),
        total_free(s) == total_free(s.take(i)) + total_free(s.skip(i)),
    decreases s.len() - i,
{
    if i == s.len() {
        assert(s.take(i) =~= s);
        assert(s.skip(i) =~= Seq::empty());
    } else {
        let dl = s.drop_last();
        assert(s.take(i) =~= dl.take(i));
        assert(s.skip(i).drop_last() =~= dl.skip(i));
        assert(s.skip(i).last() == s.last());
        lemma_totals_split(dl, i);
    }
}

/// One step of a prefix sum of a fleet's totals.
pub proof fn lemma_totals_take_step(s: Seq<NodeStatus>, i: int)
    requires
        0 <= i < s.len(),
    ensures
        total_capacity(s.take(i + 1)) == total_capacity(s.take(i)) + s[i].capacity,
        total_free(s.take(i + 1)) == total_free(s.take(i)) + s[i].free_slots,
{
    assert(s.take(i + 1).drop_last() =~= s.take(i));
    assert(s.take(i + 1).last() == s[i]);
}

/// In a well-formed fleet, free slots never exceed capacity.
pub proof fn lemma_total_free_le_capacity(s: Seq<NodeStatus>)
    requires
        forall|i: int| 0 <= i < s.len() ==> (#[trigger] s[i]).wf(),
    ensures
        total_free(s) <= total_capacity(s),
        total_free(s) >= 0,
        total_capacity(s) >= 0,
    decreases s.len(),
{
    if s.len() > 0 {
        lemma_total_free_le_capacity(s.drop_last());
        lemma_sum_scheduled_nonneg(s.last().scheduled_slots@);
        assert(s[s.len() - 1].wf());
    }
}

/// A fleet with free slots has a node with free slots.
pub proof fn lemma_total_free_pos(s: Seq<NodeStatus>)
    requires
        total_free(s) > 0,
    ensures
        exists|i: int| 0 <= i < s.len() && (#[trigger] s[i]).free_slots > 0,
    decreases s.len(),
{
    if s.len() > 0 {
        if s.last().free_slots > 0 {
            assert(s[s.len() - 1].free_slots > 0);
        } else {
            lemma_total_free_pos(s.drop_last());
            let i = choose|i: int|
                0 <= i < s.drop_last().len() && (#[trigger] s.drop_last()[i]).free_slots > 0;
            assert(s[i].free_slots > 0);
        }
    }
}

/// Replacing one node changes the totals by that node's difference.
pub proof fn lemma_totals_update(s: Seq<NodeStatus>, i: int, v: NodeStatus)
    requires
        0 <= i < s.len(),
    ensures
        total_capacity(s.update(i, v)) == total_capacity(s) - s[i].capacity + v.capacity,
        total_free(s.update(i, v)) == total_free(s) - s[i].free_slots + v.free_slots,
    decreases s.len(),
{
    if i == s.len() - 1 {
        assert(s.update(i, v).drop_last() =~= s.drop_last());
        assert(s.update(i, v).last() == v);
    } else {
        assert(s.update(i, v).drop_last() =~= s.drop_last().update(i, v));
        assert(s.update(i, v).last() == s.last());
        lemma_totals_update(s.drop_last(), i, v);
    }
}

/// Node identifiers are distinct.
pub open spec fn node_ids_unique(s: Seq<NodeStatus>) -> bool {
    forall|i: int, j: int| 0 <= i < j < s.len() ==> s[i].id != s[j].id
}

/// Whether a fleet has a node with the given identifier.
pub open spec fn nodes_contain(s: Seq<NodeStatus>, id: NodeId) -> bool {
    exists|i: int| 0 <= i < s.len() && s[i].id == id
}

/// Whether a worker table has an entry for the worker.
pub open spec fn workers_contain(s: Seq<(WorkerId, NodeWorker)>, w: WorkerId) -> bool {
    exists|i: int| 0 <= i < s.len() && s[i].0 == w
}

/// Worker identifiers in a worker table are distinct.
pub open spec fn worker_ids_unique(s: Seq<(WorkerId, NodeWorker)>) -> bool {
    forall|i: int, j: int| 0 <= i < j < s.len() ==> s[i].0 != s[j].0
}

/// No worker holds slots on two nodes at once.
pub open spec fn scheduled_disjoint(s: Seq<NodeStatus>) -> bool {
    forall|i: int, j: int, w: WorkerId|
        0 <= i < s.len() && 0 <= j < s.len() && i != j && sched_contains(
            s[i].scheduled_slots@,
            w,
        ) ==> !sched_contains(s[j].scheduled_slots@, w)
}

/// Surviving nodes of an expiry are nodes of the original fleet, and the
/// well-formedness of the fleet survives with them.
proof fn lemma_live_nodes_wf(s: Seq<NodeStatus>, cutoff: u64)
    ensures
        live_nodes(s, cutoff).len() <= s.len(),
        forall|i: int|
            0 <= i < live_nodes(s, cutoff).len() ==> node_elem_of(
                #[trigger] live_nodes(s, cutoff)[i],
                s,
            ),
        node_ids_unique(s) ==> node_ids_unique(live_nodes(s, cutoff)),
        total_capacity(live_nodes(s, cutoff)) <= total_capacity(s),
        total_free(live_nodes(s, cutoff)) <= total_free(s),
    decreases s.len(),
{
    if s.len() > 0 {
        let prefix = s.drop_last();
        lemma_live_nodes_wf(prefix, cutoff);
        let live = live_nodes(s, cutoff);
        let rest = live_nodes(prefix, cutoff);
        if s.last().last_heartbeat >= cutoff {
            assert(rest.push(s.last()).drop_last() =~= rest);
        }
        assert forall|i: int| 0 <= i < live.len() implies node_elem_of(#[trigger] live[i], s) by {
            if i < rest.len() {
                assert(node_elem_of(rest[i], prefix));
                let j = choose|j: int| 0 <= j < prefix.len() && prefix[j] == rest[i];
                assert(s[j] == rest[i]);
            } else {
                assert(s[s.len() - 1] == live[i]);
            }
        }
        if node_ids_unique(s) {
            assert forall|i: int, j: int| 0 <= i < j < live.len() implies live[i].id != live[j].id by {
                if j < rest.len() {
                } else if s.last().last_heartbeat >= cutoff {
                    assert(node_elem_of(rest[i], prefix));
                    let k = choose|k: int| 0 <= k < prefix.len() && prefix[k] == rest[i];
                    assert(s[k].id != s[s.len() - 1].id);
                }
            }
        }
    }
}

/// Expiry keeps each surviving node's scheduled slots, so disjointness of
/// worker assignments survives too.
proof fn lemma_live_nodes_disjoint(s: Seq<NodeStatus>, cutoff: u64)
    requires
        node_ids_unique(s),
        scheduled_disjoint(s),
    ensures
        scheduled_disjoint(live_nodes(s, cutoff)),
{
    lemma_live_nodes_wf(s, cutoff);
    let live = live_nodes(s, cutoff);
    assert forall|i: int, j: int, w: WorkerId|
        0 <= i < live.len() && 0 <= j < live.len() && i != j && sched_contains(
            live[i].scheduled_slots@,
            w,
        ) implies !sched_contains(live[j].scheduled_slots@, w) by {
        assert(node_elem_of(live[i], s));
        assert(node_elem_of(live[j], s));
        let a = choose|a: int| 0 <= a < s.len() && s[a] == live[i];
        let b = choose|b: int| 0 <= b < s.len() && s[b] == live[j];
        if i < j {
            assert(live[i].id != live[j].id);
        } else {
            assert(live[j].id != live[i].id);
        }
        assert(a != b);
    }
}

impl NodeSchedulerState {
    /// Well-formedness of the whole scheduling state.
    pub open spec fn wf(self) -> bool {
        &&& forall|i: int| 0 <= i < self.nodes@.len() ==> (#[trigger] self.nodes@[i]).wf()
        &&& node_ids_unique(self.nodes@)
        &&& worker_ids_unique(self.workers@)
        &&& scheduled_disjoint(self.nodes@)
        &&& total_capacity(self.nodes@) <= usize::MAX
    }

    /// An empty scheduler: no nodes, no workers.
    pub fn new() -> (r: NodeSchedulerState)
        ensures
            r.wf(),
            r.nodes@.len() == 0,
            r.workers@.len() == 0,
    {
        NodeSchedulerState { nodes: Vec::new(), workers: Vec::new() }
    }

    /// Index of the node with the given identifier.
    pub fn index_of_node(&self, id: NodeId) -> (r: Option<usize>)
        ensures
            match r {
                Some(i) => i < self.nodes@.len() && self.nodes@[i as int].id == id,
                None => !nodes_contain(self.nodes@, id),
            },
    {
        let mut i: usize = 0;
        while i < self.nodes.len()
            invariant
                i <= self.nodes@.len(),
                forall|j: int| 0 <= j < i ==> self.nodes@[j].id != id,
            decreases self.nodes@.len() - i,
        {
            if self.nodes[i].id == id {
                return Some(i);
            }
            i = i + 1;
        }
        None
    }

    /// Index of the worker's entry in the worker table.
    pub fn index_of_worker(&self, w: WorkerId) -> (r: Option<usize>)
        ensures
            match r {
                Some(i) => i < self.workers@.len() && self.workers@[i as int].0 == w,
                None => !workers_contain(self.workers@, w),
            },
    {
        let mut i: usize = 0;
        while i < self.workers.len()
            invariant
                i <= self.workers@.len(),
                forall|j: int| 0 <= j < i ==> self.workers@[j].0 != w,
            decreases self.workers@.len() - i,
        {
            if self.workers[i].0 == w {
                return Some(i);
            }
            i = i + 1;
        }
        None
    }

    /// Registers a node, idempotently on its identifier: a node already known
    /// is left exactly as it is.
    pub fn register_node(&mut self, node_id: NodeId, task_slots: usize, addr: String, now: u64)
        requires
            old(self).wf(),
            total_capacity(old(self).nodes@) + task_slots <= usize::MAX,
        ensures
            final(self).wf(),
            final(self).workers@ == old(self).workers@,
            if nodes_contain(old(self).nodes@, node_id) {
                final(self).nodes@ == old(self).nodes@
            } else {
                &&& final(self).nodes@.len() == old(self).nodes@.len() + 1
                &&& final(self).nodes@.drop_last() == old(self).nodes@
                &&& final(self).nodes@.last().id == node_id
                &&& final(self).nodes@.last().capacity == task_slots
                &&& final(self).nodes@.last().free_slots == task_slots
                &&& final(self).nodes@.last().scheduled_slots@.len() == 0
                &&& final(self).nodes@.last().addr@ == addr@
                &&& final(self).nodes@.last().last_heartbeat == now
            },
    {
        match self.index_of_node(node_id) {
            Some(_) => {},
            None => {
                let node = NodeStatus::new(node_id, task_slots, addr, now);
                proof {
                    assert(self.nodes@.push(node).drop_last() =~= self.nodes@);
                }
                self.nodes.push(node);
            },
        }
    }

    /// Refreshes a node's heartbeat. A heartbeat for a node the scheduler
    /// does not know fails with `NotFound`.
    pub fn heartbeat_node(&mut self, node_id: NodeId, now: u64) -> (r: Result<(), RpcCode>)
        requires
            old(self).wf(),
        ensures
            final(self).wf(),
            final(self).workers@ == old(self).workers@,
            match r {
                Ok(()) => {
                    &&& nodes_contain(old(self).nodes@, node_id)
                    &&& final(self).nodes@.len() == old(self).nodes@.len()
                    &&& exists|i: int|
                        {
                            &&& 0 <= i < old(self).nodes@.len()
                            &&& old(self).nodes@[i].id == node_id
                            &&& final(self).nodes@ == old(self).nodes@.update(
                                i,
                                NodeStatus {
                                    last_heartbeat: now,
                                    ..old(self).nodes@[i]
                                },
                            )
                        }
                },
                Err(code) => {
                    &&& code == RpcCode::NotFound
                    &&& !nodes_contain(old(self).nodes@, node_id)
                    &&& final(self).nodes@ == old(self).nodes@
                },
            },
    {
        match self.index_of_node(node_id) {
            Some(i) => {
                let ghost prev = self.nodes@;
                let node = &mut self.nodes[i];
                node.last_heartbeat = now;
                proof {
                    assert(self.nodes@ =~= prev.update(
                        i as int,
                        NodeStatus { last_heartbeat: now, ..prev[i as int] },
                    ));
                    assert forall|k: int| 0 <= k < self.nodes@.len() implies (
                    #[trigger] self.nodes@[k]).wf() by {
                        assert(prev[k].wf());
                    }
                    lemma_total_capacity_pointwise(self.nodes@, prev);
                }
                Ok(())
            },
            None => Err(RpcCode::NotFound),
        }
    }

    /// Whether any node's accounting holds slots for the worker.
    pub fn worker_holds_slots(&self, w: WorkerId) -> (r: bool)
        requires
            self.wf(),
        ensures
            r == exists|i: int|
                0 <= i < self.nodes@.len() && sched_contains(
                    (#[trigger] self.nodes@[i]).scheduled_slots@,
                    w,
                ),
    {
        let mut i: usize = 0;
        let n = self.nodes.len();
        while i < n
            invariant
                self.wf(),
                i <= n,
                n == self.nodes@.len(),
                forall|j: int|
                    0 <= j < i ==> !sched_contains(
                        (#[trigger] self.nodes@[j]).scheduled_slots@,
                        w,
                    ),
            decreases n - i,
        {
            proof {
                assert(self.nodes@[i as int].wf());
            }
            match self.nodes[i].index_of_worker(w) {
                Some(_) => {
                    return true;
                },
                None => {},
            }
            i = i + 1;
        }
        false
    }

    /// Records that a worker was stopped: its table entry stays, marked not
    /// running, until its worker-finished report releases the slots. A
    /// worker the table does not know is left alone.
    pub fn mark_stopped(&mut self, worker_id: WorkerId)
        requires
            old(self).wf(),
        ensures
            final(self).wf(),
            final(self).nodes@ == old(self).nodes@,
            final(self).workers@.len() == old(self).workers@.len(),
            if workers_contain(old(self).workers@, worker_id) {
                exists|i: int|
                    {
                        &&& 0 <= i < old(self).workers@.len()
                        &&& old(self).workers@[i].0 == worker_id
                        &&& final(self).workers@[i].0 == worker_id
                        &&& final(self).workers@[i].1.job_id@ == old(self).workers@[i].1.job_id@
                        &&& final(self).workers@[i].1.node_id == old(self).workers@[i].1.node_id
                        &&& final(self).workers@[i].1.run_id == old(self).workers@[i].1.run_id
                        &&& !final(self).workers@[i].1.running
                        &&& (forall|j: int|
                            0 <= j < old(self).workers@.len() && j != i
                                ==> final(self).workers@[j] == old(self).workers@[j])
                    }
            } else {
                final(self).workers@ == old(self).workers@
            },
    {
        match self.index_of_worker(worker_id) {
            Some(i) => {
                let ghost prev = self.workers@;
                let entry = &mut self.workers[i];
                entry.1.running = false;
                proof {
                    let i = i as int;
                    assert forall|a: int, b: int|
                        0 <= a < b < self.workers@.len() implies self.workers@[a].0
                        != self.workers@[b].0 by {
                        assert(prev[a].0 != prev[b].0);
                        assert(self.workers@[a].0 == prev[a].0);
                        assert(self.workers@[b].0 == prev[b].0);
                    }
                }
            },
            None => {},
        }
    }

    /// Evicts every node whose last heartbeat is older than the cutoff. The
    /// survivors keep their order and their slot accounting.
    pub fn expire_nodes(&mut self, expiration_time: u64)
        requires
            old(self).wf(),
        ensures
            final(self).wf(),
            final(self).workers@ == old(self).workers@,
            final(self).nodes@ == live_nodes(old(self).nodes@, expiration_time),
            forall|i: int|
                0 <= i < final(self).nodes@.len() ==> (#[trigger] final(self).nodes@[i]).last_heartbeat
                    >= expiration_time,
    {
        let ghost orig = self.nodes@;
        let mut pending: Vec<NodeStatus> = Vec::new();
        core::mem::swap(&mut self.nodes, &mut pending);
        let mut k: usize = 0;
        let n = pending.len();
        proof {
            assert(pending@ =~= orig.skip(0));
            assert(self.nodes@ =~= live_nodes(orig.take(0), expiration_time));
        }
        while k < n
            invariant
                n == orig.len(),
                k <= n,
                pending@ == orig.skip(k as int),
                self.nodes@ == live_nodes(orig.take(k as int), expiration_time),
                self.workers@ == old(self).workers@,
                forall|i: int|
                    0 <= i < self.nodes@.len() ==> (#[trigger] self.nodes@[i]).last_heartbeat
                        >= expiration_time,
            decreases n - k,
        {
            let node = pending.remove(0);
            proof {
                assert(orig.skip(k as int)[0] == orig[k as int]);
                assert(orig.skip(k as int).remove(0) =~= orig.skip(k as int + 1));
                assert(orig.take(k as int + 1).drop_last() =~= orig.take(k as int));
                assert(orig.take(k as int + 1).last() == orig[k as int]);
            }
            if node.last_heartbeat >= expiration_time {
                self.nodes.push(node);
            }
            k = k + 1;
        }
        proof {
            assert(orig.take(n as int) =~= orig);
            lemma_live_nodes_wf(orig, expiration_time);
            lemma_live_nodes_disjoint(orig, expiration_time);
            let live = live_nodes(orig, expiration_time);
            assert forall|i: int| 0 <= i < live.len() implies (#[trigger] live[i]).wf() by {
                assert(node_elem_of(live[i], orig));
                let j = choose|j: int| 0 <= j < orig.len() && orig[j] == live[i];
                assert(orig[j].wf());
            }
        }
    }

    /// Whether a worker's record matches a job and, when given, a run.
    pub open spec fn worker_matches(
        w: NodeWorker,
        job_id: Seq<char>,
        run_id: Option<i64>,
    ) -> bool {
        &&& w.job_id@ == job_id
        &&& w.running
        &&& (run_id is None || run_id == Some(w.run_id))
    }

    /// The identifiers of the workers of a table that match a job and run,
    /// in table order.
    pub open spec fn matching_workers(
        s: Seq<(WorkerId, NodeWorker)>,
        job_id: Seq<char>,
        run_id: Option<i64>,
    ) -> Seq<WorkerId>
        decreases s.len(),
    {
        if s.len() == 0 {
            Seq::empty()
        } else {
            let rest = Self::matching_workers(s.drop_last(), job_id, run_id);
            if Self::worker_matches(s.last().1, job_id, run_id) {
                rest.push(s.last().0)
            } else {
                rest
            }
        }
    }

    /// The running workers of a job (and, when given, one run of it).
    pub fn workers_for_job(&self, job_id: &String, run_id: Option<i64>) -> (r: Vec<WorkerId>)
        ensures
            r@ == Self::matching_workers(self.workers@, job_id@, run_id),
    {
        let mut r: Vec<WorkerId> = Vec::new();
        let mut i: usize = 0;
        let n = self.workers.len();
        while i < n
            invariant
                n == self.workers@.len(),
                i <= n,
                r@ == Self::matching_workers(self.workers@.take(i as int), job_id@, run_id),
            decreases n - i,
        {
            proof {
                assert(self.workers@.take(i as int + 1).drop_last() =~= self.workers@.take(
                    i as int,
                ));
                assert(self.workers@.take(i as int + 1).last() == self.workers@[i as int]);
            }
            let entry = &self.workers[i];
            let matches_run = match run_id {
                Option::None => true,
                Option::Some(rid) => entry.1.run_id == rid,
            };
            if entry.1.running && matches_run && entry.1.job_id.eq(job_id) {
                r.push(entry.0);
            }
            i = i + 1;
        }
        proof {
            assert(self.workers@.take(n as int) =~= self.workers@);
        }
        r
    }

    /// Handles a worker-finished report: releases the worker's slots on its
    /// node and removes the worker from the table. The slot count must match
    /// what was recorded when the slots were taken; a report for an unknown
    /// node or worker is otherwise ignored.
    pub fn worker_finished(&mut self, node_id: NodeId, worker_id: WorkerId, slots: usize)
        requires
            old(self).wf(),
            forall|i: int|
                0 <= i < old(self).nodes@.len() && (#[trigger] old(self).nodes@[i]).id == node_id
                    && sched_contains(old(self).nodes@[i].scheduled_slots@, worker_id) ==> old(
                    self,
                ).nodes@[i].spec_slots_of(worker_id) == Some(slots),
        ensures
            final(self).wf(),
            // the worker's entry leaves the table
            workers_contain(old(self).workers@, worker_id) ==> exists|i: int|
                {
                    &&& 0 <= i < old(self).workers@.len()
                    &&& old(self).workers@[i].0 == worker_id
                    &&& final(self).workers@ == old(self).workers@.remove(i)
                },
            !workers_contain(old(self).workers@, worker_id) ==> final(self).workers@ == old(
                self,
            ).workers@,
            // the node's accounting is released
            !nodes_contain(old(self).nodes@, node_id) ==> final(self).nodes@ == old(self).nodes@,
            nodes_contain(old(self).nodes@, node_id) ==> exists|i: int|
                {
                    &&& 0 <= i < old(self).nodes@.len()
                    &&& old(self).nodes@[i].id == node_id
                    &&& final(self).nodes@.len() == old(self).nodes@.len()
                    &&& (forall|j: int|
                        0 <= j < old(self).nodes@.len() && j != i ==> final(self).nodes@[j] == old(
                            self,
                        ).nodes@[j])
                    &&& final(self).nodes@[i].id == old(self).nodes@[i].id
                    &&& final(self).nodes@[i].capacity == old(self).nodes@[i].capacity
                    &&& if sched_contains(old(self).nodes@[i].scheduled_slots@, worker_id) {
                        final(self).nodes@[i].free_slots == old(self).nodes@[i].free_slots + slots
                    } else {
                        final(self).nodes@[i] == old(self).nodes@[i]
                    }
                },
    {
        let ghost prev = *self;
        match self.index_of_node(node_id) {
            Some(i) => {
                let node = &mut self.nodes[i];
                node.release_slots(worker_id, slots);
                proof {
                    let i = i as int;
                    lemma_total_capacity_pointwise(self.nodes@, prev.nodes@);
                    assert forall|k: int| 0 <= k < self.nodes@.len() implies (
                    #[trigger] self.nodes@[k]).wf() by {
                        if k != i {
                            assert(self.nodes@[k] == prev.nodes@[k]);
                            assert(prev.nodes@[k].wf());
                        }
                    }
                    assert forall|a: int, b: int, w: WorkerId|
                        0 <= a < self.nodes@.len() && 0 <= b < self.nodes@.len() && a != b
                            && sched_contains(
                            self.nodes@[a].scheduled_slots@,
                            w,
                        ) implies !sched_contains(self.nodes@[b].scheduled_slots@, w) by {
                        assert(sched_contains(prev.nodes@[a].scheduled_slots@, w)) by {
                            if a == i && sched_contains(
                                prev.nodes@[i].scheduled_slots@,
                                worker_id,
                            ) {
                                let r = choose|r: int|
                                    0 <= r < self.nodes@[a].scheduled_slots@.len()
                                        && self.nodes@[a].scheduled_slots@[r].0 == w;
                                let k = choose|k: int|
                                    {
                                        &&& 0 <= k < prev.nodes@[i].scheduled_slots@.len()
                                        &&& prev.nodes@[i].scheduled_slots@[k] == (
                                        worker_id,
                                        slots,
                                        )
                                        &&& self.nodes@[i].scheduled_slots@
                                            == prev.nodes@[i].scheduled_slots@.remove(k)
                                    };
                                if r < k {
                                    assert(prev.nodes@[i].scheduled_slots@[r].0 == w);
                                } else {
                                    assert(prev.nodes@[i].scheduled_slots@[r + 1].0 == w);
                                }
                            }
                        }
                        if b == i && sched_contains(prev.nodes@[i].scheduled_slots@, worker_id) {
                            if sched_contains(self.nodes@[b].scheduled_slots@, w) {
                                let r = choose|r: int|
                                    0 <= r < self.nodes@[b].scheduled_slots@.len()
                                        && self.nodes@[b].scheduled_slots@[r].0 == w;
                                let k = choose|k: int|
                                    {
                                        &&& 0 <= k < prev.nodes@[i].scheduled_slots@.len()
                                        &&& prev.nodes@[i].scheduled_slots@[k] == (
                                        worker_id,
                                        slots,
                                        )
                                        &&& self.nodes@[i].scheduled_slots@
                                            == prev.nodes@[i].scheduled_slots@.remove(k)
                                    };
                                if r < k {
                                    assert(prev.nodes@[i].scheduled_slots@[r].0 == w);
                                } else {
                                    assert(prev.nodes@[i].scheduled_slots@[r + 1].0 == w);
                                }
                            }
                        } else {
                            assert(!sched_contains(prev.nodes@[b].scheduled_slots@, w));
                            assert(self.nodes@[b] == prev.nodes@[b]);
                        }
                    }
                }
            },
            None => {},
        }
        match self.index_of_worker(worker_id) {
            Some(i) => {
                self.workers.remove(i);
                proof {
                    let i = i as int;
                    assert forall|a: int, b: int|
                        0 <= a < b < self.workers@.len() implies self.workers@[a].0
                        != self.workers@[b].0 by {
                        if b < i {
                        } else if a < i {
                            assert(self.workers@[b].0 == prev.workers@[b + 1].0);
                        } else {
                            assert(self.workers@[a].0 == prev.workers@[a + 1].0);
                            assert(self.workers@[b].0 == prev.workers@[b + 1].0);
                        }
                    }
                }
            },
            None => {},
        }
    }
}

} // verus!
