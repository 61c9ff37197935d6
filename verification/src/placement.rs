//! Greedy best-fit placement of worker slots across the node fleet, run as a
//! transaction: slots taken so far are committed one node at a time, and on
//! any failure every slot taken in the call is released before the error
//! propagates.
//!
//! The caller drives the transaction: `start_placement` expires stale nodes
//! and checks capacity, `next_node` picks the node with the most free slots,
//! and after the start-worker call to that node's agent either
//! `commit_worker` records the placement or `abort_placement` rolls every
//! node back to its pre-call accounting.

use vstd::prelude::*;

use crate::ids::{NodeId, WorkerId};
use crate::scheduler::{
    lemma_total_capacity_pointwise, lemma_total_free_le_capacity, lemma_total_free_pos,
    lemma_totals_split, lemma_totals_take_step, lemma_totals_update, live_nodes, nodes_contain,
    sched_contains, total_capacity, total_free, workers_contain, NodeSchedulerState, NodeStatus,
    NodeWorker, HEARTBEAT_WINDOW_MS,
};

verus! {

/// Why a start-workers call failed.
#[derive(Debug)]
pub enum SchedulerError {
    /// The fleet is short this many slots.
    NotEnoughSlots { slots_needed: usize },
    /// A transient RPC or I/O failure; the caller may retry after backoff.
    Other(String),
    /// The pipeline artifacts are absent; the caller must trigger a build.
    CompilationNeeded,
}

/// A request to start the workers of one run of a pipeline.
pub struct StartPipelineReq {
    pub name: String,
    pub pipeline_path: String,
    pub wasm_path: String,
    pub job_id: String,
    pub hash: String,
    pub run_id: i64,
    pub slots: usize,
    pub env_vars: Vec<(String, String)>,
}

/// The timestamp before which a heartbeat counts as stale.
pub open spec fn spec_cutoff(now: u64) -> u64 {
    if now >= HEARTBEAT_WINDOW_MS {
        (now - HEARTBEAT_WINDOW_MS) as u64
    } else {
        0
    }
}

/// The timestamp before which a heartbeat counts as stale.
pub fn liveness_cutoff(now: u64) -> (r: u64)
    ensures
        r == spec_cutoff(now),
{
    if now >= HEARTBEAT_WINDOW_MS {
        now - HEARTBEAT_WINDOW_MS
    } else {
        0
    }
}

/// The sum of the slots of a list of committed placements.
pub open spec fn sum_assigned(s: Seq<(NodeId, WorkerId, usize)>) -> int
    decreases s.len(),
{
    if s.len() == 0 {
        0
    } else {
        sum_assigned(s.drop_last()) + s.last().2
    }
}

proof fn lemma_sum_assigned_push(s: Seq<(NodeId, WorkerId, usize)>, t: (NodeId, WorkerId, usize))
    ensures
        sum_assigned(s.push(t)) == sum_assigned(s) + t.2,
{
    assert(s.push(t).drop_last() =~= s);
}

/// The first committed placement on the given node, if any.
pub open spec fn assigned_entry(s: Seq<(NodeId, WorkerId, usize)>, id: NodeId) -> Option<
    (WorkerId, usize),
>
    decreases s.len(),
{
    if s.len() == 0 {
        None
    } else if s[0].0 == id {
        Some((s[0].1, s[0].2))
    } else {
        assigned_entry(s.skip(1), id)
    }
}

/// Committing on a new node leaves the other nodes' entries alone.
proof fn lemma_assigned_entry_push(
    s: Seq<(NodeId, WorkerId, usize)>,
    t: (NodeId, WorkerId, usize),
    id: NodeId,
)
    ensures
        assigned_entry(s, id) is Some ==> assigned_entry(s.push(t), id) == assigned_entry(s, id),
        assigned_entry(s, id) is None && t.0 == id ==> assigned_entry(s.push(t), id) == Some(
            (t.1, t.2),
        ),
        assigned_entry(s, id) is None && t.0 != id ==> assigned_entry(s.push(t), id) is None,
    decreases s.len(),
{
    if s.len() == 0 {
        assert(s.push(t)[0] == t);
        if t.0 != id {
            assert(s.push(t).skip(1) =~= Seq::<(NodeId, WorkerId, usize)>::empty());
            assert(assigned_entry(Seq::<(NodeId, WorkerId, usize)>::empty(), id) is None);
        } else {
            assert(assigned_entry(s.push(t), id) == Some((t.1, t.2)));
        }
    } else {
        assert(s.push(t)[0] == s[0]);
        assert(s.push(t).skip(1) =~= s.skip(1).push(t));
        lemma_assigned_entry_push(s.skip(1), t, id);
        if s[0].0 == id {
            assert(assigned_entry(s.push(t), id) == Some((s[0].1, s[0].2)));
            assert(assigned_entry(s, id) == Some((s[0].1, s[0].2)));
        } else {
            assert(assigned_entry(s, id) == assigned_entry(s.skip(1), id));
            assert(assigned_entry(s.push(t), id) == assigned_entry(s.skip(1).push(t), id));
        }
    }
}

/// Committed placements name distinct nodes.
pub open spec fn assigned_nodes_distinct(s: Seq<(NodeId, WorkerId, usize)>) -> bool {
    forall|i: int, j: int| 0 <= i < j < s.len() ==> s[i].0 != s[j].0
}

/// How one node's accounting relates to its snapshot while the placements in
/// `assigned` are outstanding: untouched nodes match the snapshot, and a node
/// with a committed placement has lent it exactly its slots.
pub open spec fn node_delta(
    assigned: Seq<(NodeId, WorkerId, usize)>,
    snap: NodeStatus,
    cur: NodeStatus,
) -> bool {
    &&& cur.id == snap.id
    &&& cur.capacity == snap.capacity
    &&& cur.addr == snap.addr
    &&& cur.last_heartbeat == snap.last_heartbeat
    &&& match assigned_entry(assigned, cur.id) {
        None => cur.free_slots == snap.free_slots && cur.scheduled_slots@
            == snap.scheduled_slots@,
        Some((w, s)) => {
            &&& s <= snap.free_slots
            &&& cur.free_slots == snap.free_slots - s
            &&& cur.scheduled_slots@ == snap.scheduled_slots@.push((w, s))
            &&& !sched_contains(snap.scheduled_slots@, w)
        },
    }
}

/// Whether the worker table records the committed placement `a` for the job.
pub open spec fn assigned_recorded(
    workers: Seq<(WorkerId, NodeWorker)>,
    a: (NodeId, WorkerId, usize),
    job_id: Seq<char>,
    run_id: i64,
) -> bool {
    exists|i: int|
        {
            &&& 0 <= i < workers.len()
            &&& workers[i].0 == a.1
            &&& workers[i].1.job_id@ == job_id
            &&& workers[i].1.node_id == a.0
            &&& workers[i].1.run_id == run_id
            &&& workers[i].1.running
        }
}

/// One start-workers call in flight: what was asked, what has been committed
/// so far, and the accounting snapshot the fleet returns to if the call
/// fails.
pub struct Placement {
    pub job_id: String,
    pub run_id: i64,
    /// The monotonic timestamp at which the call began.
    pub now: u64,
    /// The slot count of the request.
    pub requested: usize,
    /// Slots still to be placed.
    pub remaining: usize,
    /// Node, worker and slot count of each committed placement, in order.
    pub assigned: Vec<(NodeId, WorkerId, usize)>,
    /// The fleet's accounting when the call began, after stale nodes were
    /// expired.
    pub snapshot: Ghost<Seq<NodeStatus>>,
}

impl Placement {
    /// The transaction invariant: what has been committed plus what remains
    /// equals the request; the fleet can still supply what remains; every
    /// touched node has lent exactly its committed slots relative to the
    /// snapshot; and every committed worker is recorded in the worker table.
    pub open spec fn inv(self, state: NodeSchedulerState) -> bool {
        &&& state.wf()
        &&& sum_assigned(self.assigned@) + self.remaining == self.requested
        &&& total_free(state.nodes@) >= self.remaining
        &&& assigned_nodes_distinct(self.assigned@)
        &&& self.snapshot@.len() == state.nodes@.len()
        &&& forall|k: int|
            0 <= k < self.assigned@.len() ==> nodes_contain(
                state.nodes@,
                #[trigger] self.assigned@[k].0,
            )
        &&& forall|i: int|
            0 <= i < state.nodes@.len() ==> node_delta(
                self.assigned@,
                self.snapshot@[i],
                #[trigger] state.nodes@[i],
            )
        &&& forall|i: int|
            0 <= i < state.nodes@.len() ==> (#[trigger] state.nodes@[i]).last_heartbeat
                >= spec_cutoff(self.now)
        &&& (self.remaining > 0 ==> forall|i: int, k: int|
            0 <= i < state.nodes@.len() && 0 <= k < self.assigned@.len() && (
            #[trigger] state.nodes@[i]).id == (#[trigger] self.assigned@[k]).0
                ==> state.nodes@[i].free_slots == 0)
        &&& forall|k: int|
            0 <= k < self.assigned@.len() ==> assigned_recorded(
                state.workers@,
                #[trigger] self.assigned@[k],
                self.job_id@,
                self.run_id,
            )
    }
}

/// Law: a start-workers call that placed everything it was asked for has
/// committed slots summing exactly to the request, each committed worker
/// recorded in the worker table as a running worker of the job and run.
pub proof fn lemma_placement_complete(p: Placement, state: NodeSchedulerState)
    requires
        p.inv(state),
        p.remaining == 0,
    ensures
        sum_assigned(p.assigned@) == p.requested,
        forall|k: int|
            0 <= k < p.assigned@.len() ==> assigned_recorded(
                state.workers@,
                #[trigger] p.assigned@[k],
                p.job_id@,
                p.run_id,
            ),
{
}

/// Begins a start-workers call: expires stale nodes, and checks that the
/// fleet has the requested capacity free. On a shortfall the call fails with
/// `NotEnoughSlots` and no node's accounting changes.
pub fn start_placement(
    state: &mut NodeSchedulerState,
    job_id: String,
    run_id: i64,
    slots: usize,
    now: u64,
) -> (r: Result<Placement, SchedulerError>)
    requires
        old(state).wf(),
    ensures
        final(state).wf(),
        final(state).workers@ == old(state).workers@,
        final(state).nodes@ == live_nodes(old(state).nodes@, spec_cutoff(now)),
        match r {
            Result::Ok(p) => {
                &&& p.inv(*final(state))
                &&& p.job_id@ == job_id@
                &&& p.run_id == run_id
                &&& p.now == now
                &&& p.requested == slots
                &&& p.remaining == slots
                &&& p.assigned@.len() == 0
                &&& p.snapshot@ == final(state).nodes@
                &&& total_free(final(state).nodes@) >= slots
            },
            Result::Err(e) => {
                &&& e matches SchedulerError::NotEnoughSlots { slots_needed }
                &&& total_free(final(state).nodes@) < slots
                &&& slots_needed == slots - total_free(final(state).nodes@)
            },
        },
{
    let cutoff = liveness_cutoff(now);
    state.expire_nodes(cutoff);
    let free = total_free_slots(state);
    if slots > free {
        Err(SchedulerError::NotEnoughSlots { slots_needed: slots - free })
    } else {
        let p = Placement {
            job_id,
            run_id,
            now,
            requested: slots,
            remaining: slots,
            assigned: Vec::new(),
            snapshot: Ghost(state.nodes@),
        };
        Ok(p)
    }
}

/// Adds up the free slots of the fleet.
pub fn total_free_slots(state: &NodeSchedulerState) -> (r: usize)
    requires
        state.wf(),
    ensures
        r == total_free(state.nodes@),
{
    let s = &state.nodes;
    let n = s.len();
    let mut acc: usize = 0;
    let mut i: usize = 0;
    proof {
        assert(s@.take(0) =~= Seq::<NodeStatus>::empty());
    }
    while i < n
        invariant
            state.wf(),
            s == state.nodes,
            n == s@.len(),
            i <= n,
            acc == total_free(s@.take(i as int)),
        decreases n - i,
    {
        proof {
            lemma_totals_take_step(s@, i as int);
            lemma_totals_split(s@, i as int + 1);
            assert forall|j: int|
                0 <= j < s@.take(i as int + 1).len() implies (#[trigger] s@.take(
                i as int + 1,
            )[j]).wf() by {
                assert(s@[j].wf());
            }
            lemma_total_free_le_capacity(s@.take(i as int + 1));
            assert forall|j: int|
                0 <= j < s@.skip(i as int + 1).len() implies (#[trigger] s@.skip(
                i as int + 1,
            )[j]).wf() by {
                assert(s@[j + i + 1].wf());
            }
            lemma_total_free_le_capacity(s@.skip(i as int + 1));
            assert(total_capacity(s@.take(i as int + 1)) <= total_capacity(s@));
        }
        acc = acc + s[i].free_slots;
        i = i + 1;
    }
    proof {
        assert(s@.take(n as int) =~= s@);
    }
    acc
}

/// Picks the node for the next worker: among the live nodes with free slots,
/// the one with the most, which takes as many of the remaining slots as it
/// can hold. Capacity was checked when the call began, so such a node
/// exists.
pub fn next_node(state: &NodeSchedulerState, p: &Placement) -> (r: (NodeId, usize, String))
    requires
        p.inv(*state),
        p.remaining > 0,
    ensures
        exists|i: int|
            {
                &&& 0 <= i < state.nodes@.len()
                &&& (#[trigger] state.nodes@[i]).id == r.0
                &&& state.nodes@[i].free_slots > 0
                &&& r.2@ == state.nodes@[i].addr@
                &&& r.1 == if state.nodes@[i].free_slots < p.remaining {
                    state.nodes@[i].free_slots
                } else {
                    p.remaining
                }
                &&& forall|j: int|
                    0 <= j < state.nodes@.len() ==> (#[trigger] state.nodes@[j]).free_slots
                        <= state.nodes@[i].free_slots
            },
{
    let s = &state.nodes;
    let n = s.len();
    let mut best: usize = 0;
    let mut found = false;
    let mut i: usize = 0;
    while i < n
        invariant
            s == state.nodes,
            n == s@.len(),
            i <= n,
            found ==> best < i && forall|j: int|
                0 <= j < i ==> (#[trigger] s@[j]).free_slots <= s@[best as int].free_slots,
            found ==> s@[best as int].free_slots > 0,
            !found ==> forall|j: int| 0 <= j < i ==> (#[trigger] s@[j]).free_slots == 0,
        decreases n - i,
    {
        if s[i].free_slots > 0 && (!found || s[i].free_slots > s[best].free_slots) {
            best = i;
            found = true;
        }
        i = i + 1;
    }
    proof {
        if !found {
            lemma_total_free_pos(s@);
        }
    }
    let node = &s[best];
    let slots_here = if node.free_slots < p.remaining {
        node.free_slots
    } else {
        p.remaining
    };
    (node.id, slots_here, node.addr.clone())
}

/// Commits one worker after its start RPC succeeded: takes the slots from
/// the chosen node and records the worker in the worker table as a running
/// worker of the job. The worker identifier comes from the node's agent and
/// must be new to the controller.
pub fn commit_worker(
    state: &mut NodeSchedulerState,
    p: &mut Placement,
    node_id: NodeId,
    worker_id: WorkerId,
    slots_here: usize,
)
    requires
        old(p).inv(*old(state)),
        old(p).remaining > 0,
        exists|i: int|
            {
                &&& 0 <= i < old(state).nodes@.len()
                &&& (#[trigger] old(state).nodes@[i]).id == node_id
                &&& old(state).nodes@[i].free_slots > 0
                &&& slots_here == if old(state).nodes@[i].free_slots < old(p).remaining {
                    old(state).nodes@[i].free_slots
                } else {
                    old(p).remaining
                }
            },
        !workers_contain(old(state).workers@, worker_id),
        forall|i: int|
            0 <= i < old(state).nodes@.len() ==> !sched_contains(
                (#[trigger] old(state).nodes@[i]).scheduled_slots@,
                worker_id,
            ),
    ensures
        final(p).inv(*final(state)),
        final(p).remaining == old(p).remaining - slots_here,
        final(p).assigned@ == old(p).assigned@.push((node_id, worker_id, slots_here)),
        final(p).job_id == old(p).job_id,
        final(p).run_id == old(p).run_id,
        final(p).now == old(p).now,
        final(p).requested == old(p).requested,
        final(p).snapshot@ == old(p).snapshot@,
        final(state).workers@.len() == old(state).workers@.len() + 1,
        final(state).workers@.drop_last() == old(state).workers@,
        final(state).workers@.last().0 == worker_id,
        final(state).workers@.last().1.job_id@ == old(p).job_id@,
        final(state).workers@.last().1.node_id == node_id,
        final(state).workers@.last().1.run_id == old(p).run_id,
        final(state).workers@.last().1.running,
        final(state).nodes@.len() == old(state).nodes@.len(),
        exists|i: int|
            {
                &&& 0 <= i < old(state).nodes@.len()
                &&& (#[trigger] old(state).nodes@[i]).id == node_id
                &&& final(state).nodes@[i].free_slots == old(state).nodes@[i].free_slots
                    - slots_here
                &&& forall|j: int|
                    0 <= j < old(state).nodes@.len() && j != i ==> final(state).nodes@[j] == old(
                        state,
                    ).nodes@[j]
            },
{
    let ghost prev = *old(state);
    let ghost prev_p = *old(p);
    let idx: usize = match state.index_of_node(node_id) {
        Some(i) => i,
        None => {
            proof {
                assert(false);
            }
            0
        },
    };
    proof {
        // the witness of the requires is this very index
        let w = choose|i: int|
            {
                &&& 0 <= i < prev.nodes@.len()
                &&& (#[trigger] prev.nodes@[i]).id == node_id
                &&& prev.nodes@[i].free_slots > 0
                &&& slots_here == if prev.nodes@[i].free_slots < prev_p.remaining {
                    prev.nodes@[i].free_slots
                } else {
                    prev_p.remaining
                }
            };
        if w != idx {
            assert(prev.nodes@[w].id != prev.nodes@[idx as int].id);
        }
        // the chosen node has no outstanding placement of this call
        assert forall|k: int| 0 <= k < prev_p.assigned@.len() implies (
        #[trigger] prev_p.assigned@[k]).0 != node_id by {
            if prev_p.assigned@[k].0 == node_id {
                assert(prev.nodes@[idx as int].free_slots == 0);
            }
        }
        lemma_assigned_none_of_distinct(prev_p.assigned@, node_id);
    }
    let node = &mut state.nodes[idx];
    node.take_slots(worker_id, slots_here);
    let worker_rec = NodeWorker {
        job_id: p.job_id.clone(),
        node_id,
        run_id: p.run_id,
        running: true,
    };
    state.workers.push((worker_id, worker_rec));
    p.assigned.push((node_id, worker_id, slots_here));
    p.remaining = p.remaining - slots_here;
    proof {
        let idx = idx as int;
        let t = (node_id, worker_id, slots_here);
        assert(state.workers@.drop_last() =~= prev.workers@);
        lemma_sum_assigned_push(prev_p.assigned@, t);
        lemma_totals_update(prev.nodes@, idx, state.nodes@[idx]);
        lemma_total_capacity_pointwise(state.nodes@, prev.nodes@);
        // each node is still well-formed
        assert forall|i: int| 0 <= i < state.nodes@.len() implies (
        #[trigger] state.nodes@[i]).wf() by {
            if i != idx {
                assert(state.nodes@[i] == prev.nodes@[i]);
                assert(prev.nodes@[i].wf());
            }
        }
        // worker identifiers in the table stay distinct
        assert forall|a: int, b: int|
            0 <= a < b < state.workers@.len() implies state.workers@[a].0
            != state.workers@[b].0 by {
            if b == state.workers@.len() - 1 {
                assert(state.workers@[a] == prev.workers@[a]);
                if state.workers@[a].0 == worker_id {
                    assert(workers_contain(prev.workers@, worker_id));
                }
            } else {
                assert(state.workers@[a] == prev.workers@[a]);
                assert(state.workers@[b] == prev.workers@[b]);
            }
        }
        // no worker holds slots on two nodes
        assert forall|a: int, b: int, w: WorkerId|
            0 <= a < state.nodes@.len() && 0 <= b < state.nodes@.len() && a != b
                && sched_contains(state.nodes@[a].scheduled_slots@, w) implies !sched_contains(
            state.nodes@[b].scheduled_slots@,
            w,
        ) by {
            if sched_contains(state.nodes@[b].scheduled_slots@, w) {
                assert(sched_contains(prev.nodes@[a].scheduled_slots@, w) || (a == idx && w
                    == worker_id)) by {
                    if a == idx {
                        let r = choose|r: int|
                            0 <= r < state.nodes@[a].scheduled_slots@.len()
                                && state.nodes@[a].scheduled_slots@[r].0 == w;
                        if r < state.nodes@[a].scheduled_slots@.len() - 1 {
                            assert(prev.nodes@[a].scheduled_slots@[r].0 == w);
                        }
                    } else {
                        assert(state.nodes@[a] == prev.nodes@[a]);
                    }
                }
                assert(sched_contains(prev.nodes@[b].scheduled_slots@, w) || (b == idx && w
                    == worker_id)) by {
                    if b == idx {
                        let r = choose|r: int|
                            0 <= r < state.nodes@[b].scheduled_slots@.len()
                                && state.nodes@[b].scheduled_slots@[r].0 == w;
                        if r < state.nodes@[b].scheduled_slots@.len() - 1 {
                            assert(prev.nodes@[b].scheduled_slots@[r].0 == w);
                        }
                    } else {
                        assert(state.nodes@[b] == prev.nodes@[b]);
                    }
                }
            }
        }
        // every committed node is still a node of the fleet
        assert forall|k: int| 0 <= k < p.assigned@.len() implies nodes_contain(
            state.nodes@,
            #[trigger] p.assigned@[k].0,
        ) by {
            if k < prev_p.assigned@.len() {
                assert(nodes_contain(prev.nodes@, prev_p.assigned@[k].0));
                let j = choose|j: int|
                    0 <= j < prev.nodes@.len() && prev.nodes@[j].id == prev_p.assigned@[k].0;
                assert(state.nodes@[j].id == prev_p.assigned@[k].0);
            } else {
                assert(state.nodes@[idx].id == node_id);
            }
        }
        // the per-node delta against the snapshot still holds
        assert forall|i: int| 0 <= i < state.nodes@.len() implies node_delta(
            p.assigned@,
            p.snapshot@[i],
            #[trigger] state.nodes@[i],
        ) by {
            lemma_assigned_entry_push(prev_p.assigned@, t, state.nodes@[i].id);
            if i != idx {
                assert(state.nodes@[i] == prev.nodes@[i]);
                assert(node_delta(prev_p.assigned@, prev_p.snapshot@[i], prev.nodes@[i]));
                assert(prev.nodes@[i].id != node_id);
            } else {
                assert(node_delta(prev_p.assigned@, prev_p.snapshot@[idx], prev.nodes@[idx]));
                assert(assigned_entry(prev_p.assigned@, node_id) is None);
                assert(assigned_entry(p.assigned@, node_id) == Some((worker_id, slots_here)));
            }
        }
        // nodes with an outstanding placement stay drained while slots remain
        if p.remaining > 0 {
            assert forall|i: int, k: int|
                0 <= i < state.nodes@.len() && 0 <= k < p.assigned@.len() && (
                #[trigger] state.nodes@[i]).id == (#[trigger] p.assigned@[k]).0 implies state.nodes@[i].free_slots
                == 0 by {
                if k < prev_p.assigned@.len() {
                    assert(prev_p.assigned@[k].0 != node_id);
                    assert(state.nodes@[i].id != node_id);
                    assert(i != idx);
                    assert(state.nodes@[i] == prev.nodes@[i]);
                } else {
                    assert(p.assigned@[k] == t);
                    if i == idx {
                        assert(slots_here == prev.nodes@[idx].free_slots);
                    } else {
                        assert(state.nodes@[i].id != node_id);
                    }
                }
            }
        }
        // every committed worker is recorded in the worker table
        assert forall|k: int| 0 <= k < p.assigned@.len() implies assigned_recorded(
            state.workers@,
            #[trigger] p.assigned@[k],
            p.job_id@,
            p.run_id,
        ) by {
            if k < prev_p.assigned@.len() {
                assert(assigned_recorded(
                    prev.workers@,
                    prev_p.assigned@[k],
                    prev_p.job_id@,
                    prev_p.run_id,
                ));
                let j = choose|j: int|
                    {
                        &&& 0 <= j < prev.workers@.len()
                        &&& prev.workers@[j].0 == prev_p.assigned@[k].1
                        &&& prev.workers@[j].1.job_id@ == prev_p.job_id@
                        &&& prev.workers@[j].1.node_id == prev_p.assigned@[k].0
                        &&& prev.workers@[j].1.run_id == prev_p.run_id
                        &&& prev.workers@[j].1.running
                    };
                assert(state.workers@[j] == prev.workers@[j]);
            } else {
                let j = state.workers@.len() - 1;
                assert(state.workers@[j].0 == worker_id);
            }
        }
    }
}

/// Law: rolling a failed start-workers call back releases every slot taken
/// in the call, so that each node's accounting returns exactly to the
/// snapshot taken when the call began. The worker table keeps its entries
/// until their worker-finished reports arrive.
pub fn abort_placement(state: &mut NodeSchedulerState, p: Placement)
    requires
        p.inv(*old(state)),
    ensures
        final(state).wf(),
        final(state).workers@ == old(state).workers@,
        final(state).nodes@.len() == p.snapshot@.len(),
        forall|i: int|
            0 <= i < final(state).nodes@.len() ==> {
                &&& (#[trigger] final(state).nodes@[i]).id == p.snapshot@[i].id
                &&& final(state).nodes@[i].capacity == p.snapshot@[i].capacity
                &&& final(state).nodes@[i].free_slots == p.snapshot@[i].free_slots
                &&& final(state).nodes@[i].scheduled_slots@ == p.snapshot@[i].scheduled_slots@
                &&& final(state).nodes@[i].addr == p.snapshot@[i].addr
                &&& final(state).nodes@[i].last_heartbeat == p.snapshot@[i].last_heartbeat
            },
{
    let n = p.assigned.len();
    let mut k: usize = 0;
    proof {
        assert(p.assigned@.skip(0) =~= p.assigned@);
    }
    while k < n
        invariant
            n == p.assigned@.len(),
            k <= n,
            state.wf(),
            state.workers@ == old(state).workers@,
            state.nodes@.len() == p.snapshot@.len(),
            assigned_nodes_distinct(p.assigned@),
            forall|q: int|
                0 <= q < p.assigned@.len() ==> nodes_contain(
                    state.nodes@,
                    (#[trigger] p.assigned@[q]).0,
                ),
            forall|i: int|
                0 <= i < state.nodes@.len() ==> node_delta(
                    p.assigned@.skip(k as int),
                    p.snapshot@[i],
                    #[trigger] state.nodes@[i],
                ),
        decreases n - k,
    {
        let ghost prev = *state;
        let (node_id, worker_id, slots) = p.assigned[k];
        let idx: usize = match state.index_of_node(node_id) {
            Some(i) => i,
            None => {
                proof {
                    assert(nodes_contain(state.nodes@, p.assigned@[k as int].0));
                    assert(false);
                }
                0
            },
        };
        proof {
            let rest = p.assigned@.skip(k as int);
            assert(rest[0] == p.assigned@[k as int]);
            assert(assigned_entry(rest, node_id) == Some((worker_id, slots)));
            let cur = state.nodes@[idx as int];
            let snap = p.snapshot@[idx as int];
            assert(node_delta(rest, snap, cur));
            // the worker's entry is the pushed last one, so its recorded
            // count is exactly `slots`
            assert(cur.scheduled_slots@.last() == (worker_id, slots));
            if sched_contains(cur.scheduled_slots@, worker_id) {
                let r = choose|r: int|
                    0 <= r < cur.scheduled_slots@.len() && cur.scheduled_slots@[r].0 == worker_id;
                assert forall|q: int|
                    0 <= q < cur.scheduled_slots@.len() && cur.scheduled_slots@[q].0
                        == worker_id implies cur.scheduled_slots@[q].1 == slots by {
                    if q < cur.scheduled_slots@.len() - 1 {
                        assert(snap.scheduled_slots@[q].0 == worker_id);
                        assert(false);
                    }
                }
            }
        }
        let node = &mut state.nodes[idx];
        node.release_slots(worker_id, slots);
        proof {
            let idx = idx as int;
            let rest = p.assigned@.skip(k as int);
            let snap = p.snapshot@[idx];
            let before = prev.nodes@[idx];
            let cur = state.nodes@[idx];
            // the removed entry was the pushed last one
            assert(sched_contains(before.scheduled_slots@, worker_id));
            let r = choose|r: int|
                {
                    &&& 0 <= r < before.scheduled_slots@.len()
                    &&& before.scheduled_slots@[r] == (worker_id, slots)
                    &&& cur.scheduled_slots@ == before.scheduled_slots@.remove(r)
                };
            assert(r == before.scheduled_slots@.len() - 1) by {
                if r < before.scheduled_slots@.len() - 1 {
                    assert(snap.scheduled_slots@[r].0 == worker_id);
                    assert(!sched_contains(snap.scheduled_slots@, worker_id));
                }
            }
            assert(cur.scheduled_slots@ =~= snap.scheduled_slots@) by {
                assert(before.scheduled_slots@ == snap.scheduled_slots@.push(
                    (worker_id, slots),
                ));
                assert(before.scheduled_slots@.remove(before.scheduled_slots@.len() - 1)
                    =~= snap.scheduled_slots@);
            }
            // the fleet stays well-formed
            lemma_total_capacity_pointwise(state.nodes@, prev.nodes@);
            assert forall|i: int| 0 <= i < state.nodes@.len() implies (
            #[trigger] state.nodes@[i]).wf() by {
                if i != idx {
                    assert(state.nodes@[i] == prev.nodes@[i]);
                    assert(prev.nodes@[i].wf());
                }
            }
            assert forall|a: int, b: int, w: WorkerId|
                0 <= a < state.nodes@.len() && 0 <= b < state.nodes@.len() && a != b
                    && sched_contains(state.nodes@[a].scheduled_slots@, w) implies !sched_contains(
                state.nodes@[b].scheduled_slots@,
                w,
            ) by {
                assert(sched_contains(prev.nodes@[a].scheduled_slots@, w)) by {
                    if a == idx {
                        let q = choose|q: int|
                            0 <= q < cur.scheduled_slots@.len() && cur.scheduled_slots@[q].0 == w;
                        assert(before.scheduled_slots@[q].0 == w);
                    } else {
                        assert(state.nodes@[a] == prev.nodes@[a]);
                    }
                }
                if sched_contains(state.nodes@[b].scheduled_slots@, w) {
                    assert(sched_contains(prev.nodes@[b].scheduled_slots@, w)) by {
                        if b == idx {
                            let q = choose|q: int|
                                0 <= q < cur.scheduled_slots@.len() && cur.scheduled_slots@[q].0
                                    == w;
                            assert(before.scheduled_slots@[q].0 == w);
                        } else {
                            assert(state.nodes@[b] == prev.nodes@[b]);
                        }
                    }
                    assert(false);
                }
            }
            // the delta now speaks of the placements still to be released
            assert(p.assigned@.skip(k as int).skip(1) =~= p.assigned@.skip(k as int + 1));
            assert forall|q: int|
                0 <= q < p.assigned@.skip(k as int + 1).len() implies (#[trigger] p.assigned@.skip(
                k as int + 1,
            )[q]).0 != node_id by {
                assert(p.assigned@[q + k + 1].0 != p.assigned@[k as int].0);
            }
            lemma_assigned_none_of_distinct(p.assigned@.skip(k as int + 1), node_id);
            assert forall|i: int| 0 <= i < state.nodes@.len() implies node_delta(
                p.assigned@.skip(k as int + 1),
                p.snapshot@[i],
                #[trigger] state.nodes@[i],
            ) by {
                if i == idx {
                } else {
                    assert(state.nodes@[i] == prev.nodes@[i]);
                    assert(node_delta(rest, p.snapshot@[i], prev.nodes@[i]));
                    assert(prev.nodes@[i].id != node_id) by {
                        assert(prev.nodes@[idx].id == node_id);
                    }
                    assert(assigned_entry(rest, prev.nodes@[i].id) == assigned_entry(
                        rest.skip(1),
                        prev.nodes@[i].id,
                    ));
                }
            }
            // nodes of later placements are still present
            assert forall|q: int| 0 <= q < p.assigned@.len() implies nodes_contain(
                state.nodes@,
                (#[trigger] p.assigned@[q]).0,
            ) by {
                assert(nodes_contain(prev.nodes@, p.assigned@[q].0));
                let j = choose|j: int|
                    0 <= j < prev.nodes@.len() && prev.nodes@[j].id == p.assigned@[q].0;
                assert(state.nodes@[j].id == p.assigned@[q].0);
            }
        }
        k = k + 1;
    }
    proof {
        assert(p.assigned@.skip(n as int) =~= Seq::<(NodeId, WorkerId, usize)>::empty());
        assert(assigned_entry(Seq::<(NodeId, WorkerId, usize)>::empty(), NodeId(0)) is None);
        assert forall|i: int|
            0 <= i < state.nodes@.len() implies {
            &&& (#[trigger] state.nodes@[i]).id == p.snapshot@[i].id
            &&& state.nodes@[i].capacity == p.snapshot@[i].capacity
            &&& state.nodes@[i].free_slots == p.snapshot@[i].free_slots
            &&& state.nodes@[i].scheduled_slots@ == p.snapshot@[i].scheduled_slots@
            &&& state.nodes@[i].addr == p.snapshot@[i].addr
            &&& state.nodes@[i].last_heartbeat == p.snapshot@[i].last_heartbeat
        } by {
            assert(node_delta(p.assigned@.skip(n as int), p.snapshot@[i], state.nodes@[i]));
            assert(assigned_entry(p.assigned@.skip(n as int), state.nodes@[i].id) is None);
        }
    }
}

/// Every node agent answered its start request.
pub open spec fn replies_all_ok(replies: Seq<Result<u64, String>>) -> bool {
    forall|k: int| 0 <= k < replies.len() ==> (#[trigger] replies[k]) is Ok
}

/// No two agents answered with the same worker identifier.
pub open spec fn reply_ids_distinct(replies: Seq<Result<u64, String>>) -> bool {
    forall|a: int, b: int|
        0 <= a < b < replies.len() && replies[a] is Ok && replies[b] is Ok ==> (
        #[trigger] replies[a])->Ok_0 != (#[trigger] replies[b])->Ok_0
}

/// No agent answered with a worker identifier the controller already knows,
/// from its worker table or from any node's slot accounting.
pub open spec fn reply_ids_fresh(
    replies: Seq<Result<u64, String>>,
    workers: Seq<(WorkerId, NodeWorker)>,
    nodes: Seq<NodeStatus>,
) -> bool {
    forall|k: int|
        0 <= k < replies.len() && (#[trigger] replies[k]) is Ok ==> {
            &&& !workers_contain(workers, WorkerId(replies[k]->Ok_0))
            &&& forall|i: int|
                0 <= i < nodes.len() ==> !sched_contains(
                    (#[trigger] nodes[i]).scheduled_slots@,
                    WorkerId(replies[k]->Ok_0),
                )
        }
}

/// A whole start-workers call, with the node agents' replies handed in as
/// data: one reply per chosen node, each carrying the worker identifier the
/// agent allocated, or the failure it answered with. The caller that talks
/// to real agents drives the transaction itself, step by step, with the
/// same functions this one uses.
///
/// All-or-nothing: on success the committed placements sum exactly to the
/// request and every committed worker is recorded as running; on any
/// failure, every slot taken in the call is released, so no node's slot
/// accounting differs from the snapshot taken when the call began (after
/// stale nodes were expired).
pub fn start_workers(
    state: &mut NodeSchedulerState,
    job_id: String,
    run_id: i64,
    slots: usize,
    now: u64,
    replies: &Vec<Result<u64, String>>,
) -> (r: Result<Vec<(NodeId, WorkerId, usize)>, SchedulerError>)
    requires
        old(state).wf(),
    ensures
        final(state).wf(),
        final(state).nodes@.len() == live_nodes(old(state).nodes@, spec_cutoff(now)).len(),
        // a capacity shortfall, and nothing else, answers with the missing count
        (match r {
            Result::Err(SchedulerError::NotEnoughSlots { .. }) => true,
            _ => false,
        }) == (total_free(live_nodes(old(state).nodes@, spec_cutoff(now))) < slots),
        // success is owed when the capacity is there and every agent asked
        // answers with a fresh, distinct worker identifier
        ({
            &&& total_free(live_nodes(old(state).nodes@, spec_cutoff(now))) >= slots
            &&& replies@.len() >= slots
            &&& replies_all_ok(replies@)
            &&& reply_ids_distinct(replies@)
            &&& reply_ids_fresh(
                replies@,
                old(state).workers@,
                live_nodes(old(state).nodes@, spec_cutoff(now)),
            )
        } ==> r is Ok),
        match r {
            Result::Ok(assigned) => {
                &&& sum_assigned(assigned@) == slots
                &&& assigned_nodes_distinct(assigned@)
                &&& (forall|k: int|
                    0 <= k < assigned@.len() ==> assigned_recorded(
                        final(state).workers@,
                        #[trigger] assigned@[k],
                        job_id@,
                        run_id,
                    ))
                &&& (forall|i: int|
                    0 <= i < final(state).nodes@.len() ==> node_delta(
                        assigned@,
                        live_nodes(old(state).nodes@, spec_cutoff(now))[i],
                        #[trigger] final(state).nodes@[i],
                    ))
            },
            Result::Err(e) => {
                &&& (forall|i: int|
                    0 <= i < final(state).nodes@.len() ==> node_delta(
                        Seq::empty(),
                        live_nodes(old(state).nodes@, spec_cutoff(now))[i],
                        #[trigger] final(state).nodes@[i],
                    ))
                &&& !(e is CompilationNeeded)
                &&& (e matches SchedulerError::NotEnoughSlots { slots_needed } ==> {
                    &&& total_free(live_nodes(old(state).nodes@, spec_cutoff(now))) < slots
                    &&& slots_needed == slots - total_free(
                        live_nodes(old(state).nodes@, spec_cutoff(now)),
                    )
                })
            },
        },
{
    let ghost job_view = job_id@;
    let ghost live = live_nodes(old(state).nodes@, spec_cutoff(now));
    let mut p = match start_placement(state, job_id, run_id, slots, now) {
        Ok(p) => p,
        Err(e) => {
            proof {
                lemma_node_delta_empty(state.nodes@);
            }
            return Err(e);
        },
    };
    let mut k: usize = 0;
    while p.remaining > 0
        invariant
            p.inv(*state),
            p.job_id@ == job_view,
            p.run_id == run_id,
            p.requested == slots,
            p.now == now,
            p.snapshot@ == live,
            live == live_nodes(old(state).nodes@, spec_cutoff(now)),
            state.nodes@.len() == live.len(),
            total_free(live) >= slots,
            k <= replies@.len(),
            k == p.assigned@.len(),
            forall|q: int| 0 <= q < k ==> (#[trigger] p.assigned@[q]).2 >= 1,
            forall|q: int| 0 <= q < k ==> (#[trigger] replies@[q]) is Ok,
            forall|q: int|
                0 <= q < k ==> (#[trigger] p.assigned@[q]).1 == WorkerId(replies@[q]->Ok_0),
            state.workers@.len() == old(state).workers@.len() + k,
            forall|q: int|
                0 <= q < old(state).workers@.len() ==> #[trigger] state.workers@[q] == old(
                    state,
                ).workers@[q],
            forall|q: int|
                0 <= q < k ==> (#[trigger] state.workers@[old(state).workers@.len() + q]).0
                    == p.assigned@[q].1,
        decreases p.remaining,
    {
        if k >= replies.len() {
            proof {
                // with enough all-successful replies this exit cannot come:
                // every committed placement consumed one reply and holds at
                // least one slot
                if replies@.len() >= slots {
                    lemma_sum_assigned_lower_bound(p.assigned@);
                }
            }
            // the caller ran out of agents to ask: release everything
            abort_placement(state, p);
            proof {
                lemma_node_delta_restored(state.nodes@, live);
            }
            return Err(SchedulerError::Other("no reply from the chosen node".to_owned()));
        }
        let (node_id, slots_here, _addr) = next_node(state, &p);
        let reply = &replies[k];
        proof {
            assert(*reply == replies@[k as int]);
        }
        match reply {
            Result::Ok(worker_id) => {
                let w = WorkerId(*worker_id);
                proof {
                    assert(replies@[k as int] is Ok);
                    assert(replies@[k as int]->Ok_0 == w.0);
                }
                let fresh = match state.index_of_worker(w) {
                    Some(_) => false,
                    None => !state.worker_holds_slots(w),
                };
                if !fresh {
                    proof {
                        // with fresh and distinct reply identifiers this
                        // exit cannot come: everything the controller knows
                        // under this identifier traces back to the initial
                        // tables or to an earlier reply of this call
                        if reply_ids_distinct(replies@) && reply_ids_fresh(
                            replies@,
                            old(state).workers@,
                            live,
                        ) {
                            let kk = k as int;
                            let base = old(state).workers@.len() as int;
                            if workers_contain(state.workers@, w) {
                                let idx = choose|idx: int|
                                    0 <= idx < state.workers@.len() && state.workers@[idx].0 == w;
                                if idx < base {
                                    assert(state.workers@[idx] == old(state).workers@[idx]);
                                    assert(workers_contain(old(state).workers@, w));
                                } else {
                                    assert(state.workers@[base + (idx - base)].0 == p.assigned@[
                                        idx - base].1);
                                    assert(replies@[idx - base]->Ok_0 == replies@[kk]->Ok_0);
                                }
                            } else {
                                let i = choose|i: int|
                                    0 <= i < state.nodes@.len() && sched_contains(
                                        (#[trigger] state.nodes@[i]).scheduled_slots@,
                                        w,
                                    );
                                assert(node_delta(p.assigned@, live[i], state.nodes@[i]));
                                match assigned_entry(p.assigned@, state.nodes@[i].id) {
                                    None => {
                                        assert(sched_contains(live[i].scheduled_slots@, w));
                                    },
                                    Some((w2, s2)) => {
                                        let sched = state.nodes@[i].scheduled_slots@;
                                        let snap_sched = live[i].scheduled_slots@;
                                        let ri = choose|ri: int|
                                            0 <= ri < sched.len() && sched[ri].0 == w;
                                        if ri < sched.len() - 1 {
                                            assert(snap_sched[ri].0 == w);
                                            assert(sched_contains(snap_sched, w));
                                        } else {
                                            assert(w == w2);
                                            lemma_assigned_entry_some_index(
                                                p.assigned@,
                                                state.nodes@[i].id,
                                            );
                                            let j = choose|j: int|
                                                0 <= j < p.assigned@.len()
                                                    && #[trigger] p.assigned@[j] == (
                                                state.nodes@[i].id,
                                                w2,
                                                s2,
                                                );
                                            assert(replies@[j]->Ok_0 == replies@[kk]->Ok_0);
                                        }
                                    },
                                }
                            }
                            assert(false);
                        }
                    }
                    abort_placement(state, p);
                    proof {
                        lemma_node_delta_restored(state.nodes@, live);
                    }
                    return Err(
                        SchedulerError::Other(
                            "node answered with a worker id already in use".to_owned(),
                        ),
                    );
                }
                let ghost workers_before = state.workers@;
                let ghost assigned_before = p.assigned@;
                commit_worker(state, &mut p, node_id, w, slots_here);
                proof {
                    let kk = k as int;
                    let base = old(state).workers@.len() as int;
                    assert forall|q: int| 0 <= q < kk + 1 implies (#[trigger] replies@[q]) is Ok by {
                        if q == kk {
                            assert(replies@[kk] is Ok);
                        }
                    }
                    assert forall|q: int|
                        0 <= q < kk + 1 implies (#[trigger] p.assigned@[q]).1 == WorkerId(
                        replies@[q]->Ok_0,
                    ) by {
                        if q < kk {
                            assert(p.assigned@[q] == assigned_before[q]);
                        } else {
                            assert(p.assigned@[kk] == (node_id, w, slots_here));
                        }
                    }
                    assert forall|q: int| 0 <= q < kk + 1 implies (#[trigger] p.assigned@[q]).2
                        >= 1 by {
                        if q < kk {
                            assert(p.assigned@[q] == assigned_before[q]);
                        } else {
                            assert(p.assigned@[kk] == (node_id, w, slots_here));
                        }
                    }
                    assert(state.workers@.drop_last() == workers_before);
                    assert forall|q: int|
                        0 <= q < base implies #[trigger] state.workers@[q] == old(
                        state,
                    ).workers@[q] by {
                        assert(state.workers@.drop_last()[q] == state.workers@[q]);
                        assert(workers_before[q] == old(state).workers@[q]);
                    }
                    assert forall|q: int|
                        0 <= q < kk + 1 implies (#[trigger] state.workers@[base + q]).0
                        == p.assigned@[q].1 by {
                        if q < kk {
                            assert(state.workers@.drop_last()[base + q] == state.workers@[base
                                + q]);
                            assert(workers_before[base + q].0 == assigned_before[q].1);
                            assert(p.assigned@[q] == assigned_before[q]);
                        } else {
                            assert(state.workers@[base + kk] == state.workers@.last());
                            assert(p.assigned@[kk] == (node_id, w, slots_here));
                        }
                    }
                }
            },
            Result::Err(msg) => {
                proof {
                    // under all-successful replies this exit cannot come
                    assert(replies_all_ok(replies@) ==> replies@[k as int] is Ok);
                }
                let reason = msg.clone();
                abort_placement(state, p);
                proof {
                    lemma_node_delta_restored(state.nodes@, live);
                }
                return Err(SchedulerError::Other(reason));
            },
        }
        k = k + 1;
    }
    Ok(p.assigned)
}

/// Against an empty placement list, the delta relation is plain equality of
/// each node with itself.
proof fn lemma_node_delta_empty(nodes: Seq<NodeStatus>)
    ensures
        forall|i: int|
            0 <= i < nodes.len() ==> node_delta(Seq::empty(), nodes[i], #[trigger] nodes[i]),
{
    assert(forall|id: NodeId| (#[trigger] assigned_entry(
        Seq::<(NodeId, WorkerId, usize)>::empty(),
        id,
    )) is None);
}

/// A fleet whose accounting equals a snapshot field for field satisfies the
/// delta relation against an empty placement list.
proof fn lemma_node_delta_restored(nodes: Seq<NodeStatus>, snap: Seq<NodeStatus>)
    requires
        nodes.len() == snap.len(),
        forall|i: int|
            0 <= i < nodes.len() ==> {
                &&& (#[trigger] nodes[i]).id == snap[i].id
                &&& nodes[i].capacity == snap[i].capacity
                &&& nodes[i].free_slots == snap[i].free_slots
                &&& nodes[i].scheduled_slots@ == snap[i].scheduled_slots@
                &&& nodes[i].addr == snap[i].addr
                &&& nodes[i].last_heartbeat == snap[i].last_heartbeat
            },
    ensures
        forall|i: int|
            0 <= i < nodes.len() ==> node_delta(Seq::empty(), snap[i], #[trigger] nodes[i]),
{
    assert(forall|id: NodeId| (#[trigger] assigned_entry(
        Seq::<(NodeId, WorkerId, usize)>::empty(),
        id,
    )) is None);
}

/// Each committed placement counts at least one slot toward the sum.
proof fn lemma_sum_assigned_lower_bound(s: Seq<(NodeId, WorkerId, usize)>)
    requires
        forall|k: int| 0 <= k < s.len() ==> (#[trigger] s[k]).2 >= 1,
    ensures
        sum_assigned(s) >= s.len(),
    decreases s.len(),
{
    if s.len() > 0 {
        assert forall|k: int| 0 <= k < s.drop_last().len() implies (
        #[trigger] s.drop_last()[k]).2 >= 1 by {
            assert(s[k].2 >= 1);
        }
        lemma_sum_assigned_lower_bound(s.drop_last());
        assert(s[s.len() - 1].2 >= 1);
    }
}

/// An entry found for a node names one of the committed placements.
proof fn lemma_assigned_entry_some_index(s: Seq<(NodeId, WorkerId, usize)>, id: NodeId)
    requires
        assigned_entry(s, id) is Some,
    ensures
        exists|j: int|
            0 <= j < s.len() && #[trigger] s[j] == (
                id,
                assigned_entry(s, id)->Some_0.0,
                assigned_entry(s, id)->Some_0.1,
            ),
    decreases s.len(),
{
    if s[0].0 == id {
        assert(s[0] == (id, assigned_entry(s, id)->Some_0.0, assigned_entry(s, id)->Some_0.1));
    } else {
        lemma_assigned_entry_some_index(s.skip(1), id);
        let j = choose|j: int|
            0 <= j < s.skip(1).len() && #[trigger] s.skip(1)[j] == (
                id,
                assigned_entry(s.skip(1), id)->Some_0.0,
                assigned_entry(s.skip(1), id)->Some_0.1,
            );
        assert(s[j + 1] == (id, assigned_entry(s, id)->Some_0.0, assigned_entry(s, id)->Some_0.1));
    }
}

/// A node outside every entry of a distinct placement list has no entry.
proof fn lemma_assigned_none_of_distinct(s: Seq<(NodeId, WorkerId, usize)>, id: NodeId)
    requires
        forall|k: int| 0 <= k < s.len() ==> (#[trigger] s[k]).0 != id,
    ensures
        assigned_entry(s, id) is None,
    decreases s.len(),
{
    if s.len() > 0 {
        assert(s[0].0 != id);
        assert forall|k: int| 0 <= k < s.skip(1).len() implies (#[trigger] s.skip(1)[k]).0
            != id by {
            assert(s[k + 1].0 != id);
        }
        lemma_assigned_none_of_distinct(s.skip(1), id);
    }
}

} // verus!
