//! The per-task operator runtime: one event-loop step at a time, it routes
//! records to the operator's logical inputs, aligns checkpoint barriers
//! across input partitions, tracks watermarks and timers, and counts
//! end-of-stream markers.
//!
//! The surrounding loop performs the actions a step hands back (dispatching
//! to the operator, sending checkpoint events, writing the snapshot,
//! broadcasting downstream); everything the runtime decides is here.

use vstd::prelude::*;
use vstd::arithmetic::div_mod::lemma_multiply_divide_lt;
use vstd::pervasive::VecAdditionalExecFns;

verus! {

/// One data record as the runtime sees it: a timestamp, and a key and value
/// that belong to the operator and are never inspected here.
#[derive(Clone, Copy, Debug, PartialEq, Eq, Structural)]
pub struct RecordItem {
    pub timestamp: u64,
    pub key: u64,
    pub value: u64,
}

/// What a logical channel carries.
#[derive(Clone, Copy, Debug, PartialEq, Eq, Structural)]
pub enum StreamMessage {
    Record(RecordItem),
    /// No later record on this partition has a smaller event time.
    Watermark(u64),
    /// Checkpoint marker for an epoch; `then_stop` asks the operator to stop
    /// once the epoch's snapshot is out.
    Barrier { epoch: u32, then_stop: bool },
    /// Orderly shutdown after draining.
    Stop,
    /// Bounded-source termination.
    EndOfData,
}

/// Lifecycle events of a checkpoint, reported to the controller.
#[derive(Clone, Copy, Debug, PartialEq, Eq, Structural)]
pub enum CheckpointEventType {
    StartedAlignment,
    StartedCheckpointing,
    FinishedOperatorSetup,
    FinishedSync,
}

/// What the surrounding loop must do after a step.
#[derive(Clone, Copy, Debug, PartialEq, Eq)]
pub enum Action {
    /// Hand the record to the operator's method for this logical input.
    DispatchRecord { logical_input: usize, record: RecordItem },
    SendCheckpointEvent { epoch: u32, event: CheckpointEventType },
    /// Let the operator write what it needs into the snapshot.
    InvokeHandleCheckpoint { epoch: u32 },
    /// Ask the state backend for its asynchronous snapshot.
    SnapshotState { epoch: u32, watermark: Option<u64> },
    BroadcastBarrier { epoch: u32, then_stop: bool },
    /// Tell the state backend the watermark advanced, so it can expire state.
    NotifyStateWatermark { watermark: u64 },
    /// A timer whose trigger time the watermark passed.
    FireTimer { key: u64, payload: u64 },
    InvokeHandleWatermark { watermark: u64 },
    BroadcastStop,
    BroadcastEndOfData,
}

/// How the loop goes on after a step.
#[derive(Clone, Copy, Debug, PartialEq, Eq, Structural)]
pub enum ControlOutcome {
    Continue,
    Stop,
    Finish,
}

/// A channel-protocol violation; it aborts the subtask.
#[derive(Clone, Copy, Debug, PartialEq, Eq, Structural)]
pub enum TaskError {
    /// A message arrived on a partition that already delivered its barrier
    /// for the in-flight epoch; such partitions are parked until the epoch
    /// completes, so a read from one is a violation (and a second barrier
    /// would be a double delivery).
    BlockedPartition,
    /// A message arrived on a partition already retired by its end-of-stream
    /// marker.
    ClosedPartition,
    /// A barrier for a different epoch arrived while one was being aligned.
    EpochMismatch,
}

/// The minimum of the per-input watermarks: defined once every input has
/// reported one.
pub open spec fn min_watermark(ws: Seq<Option<u64>>) -> Option<u64>
    decreases ws.len(),
{
    if ws.len() == 0 {
        None
    } else if ws.len() == 1 {
        ws[0]
    } else {
        match (min_watermark(ws.drop_last()), ws.last()) {
            (Some(m), Some(w)) => Some(if w <= m { w } else { m }),
            _ => None,
        }
    }
}

/// The timers whose trigger time the watermark has reached, in table order.
pub open spec fn due_timers(ts: Seq<(u64, u64, u64)>, wm: u64) -> Seq<(u64, u64, u64)>
    decreases ts.len(),
{
    if ts.len() == 0 {
        Seq::empty()
    } else {
        let rest = due_timers(ts.drop_last(), wm);
        if ts.last().1 <= wm {
            rest.push(ts.last())
        } else {
            rest
        }
    }
}

/// The timers still waiting after the watermark, in table order.
pub open spec fn pending_timers(ts: Seq<(u64, u64, u64)>, wm: u64) -> Seq<(u64, u64, u64)>
    decreases ts.len(),
{
    if ts.len() == 0 {
        Seq::empty()
    } else {
        let rest = pending_timers(ts.drop_last(), wm);
        if ts.last().1 <= wm {
            rest
        } else {
            rest.push(ts.last())
        }
    }
}

/// The actions of one watermark emission: notify the state backend, fire the
/// due timers in order, then hand the watermark to the operator (whose
/// default forwards it downstream).
pub open spec fn watermark_actions(m: u64, timers_before: Seq<(u64, u64, u64)>) -> Seq<Action> {
    seq![Action::NotifyStateWatermark { watermark: m }] + due_timers(timers_before, m).map_values(
        |t: (u64, u64, u64)| Action::FireTimer { key: t.0, payload: t.2 },
    ) + seq![Action::InvokeHandleWatermark { watermark: m }]
}

/// The action sequence of a completed alignment, in the order the protocol
/// fixes: started-checkpointing event, operator checkpoint hook, setup
/// event, asynchronous snapshot with the current watermark, sync event, and
/// the barrier broadcast downstream.
pub open spec fn checkpoint_actions(epoch: u32, then_stop: bool, wm: Option<u64>) -> Seq<Action> {
    seq![
        Action::SendCheckpointEvent { epoch, event: CheckpointEventType::StartedCheckpointing },
        Action::InvokeHandleCheckpoint { epoch },
        Action::SendCheckpointEvent { epoch, event: CheckpointEventType::FinishedOperatorSetup },
        Action::SnapshotState { epoch, watermark: wm },
        Action::SendCheckpointEvent { epoch, event: CheckpointEventType::FinishedSync },
        Action::BroadcastBarrier { epoch, then_stop },
    ]
}

/// Law: while a checkpoint epoch is in flight, a partition that has
/// contributed its barrier is parked (nothing more is read from it until
/// the epoch completes, so none of its records behind the barrier is
/// dispatched), it is not retired, and alignment is still open. Together
/// with the step contract — which refuses a second barrier from a marked
/// partition and broadcasts the epoch's barrier only once every partition
/// is marked or retired — each partition contributes exactly one barrier
/// per epoch before any later record is dispatched.
pub proof fn lemma_contributor_is_parked(st: TaskState, i: int)
    requires
        st.wf(),
        0 <= i < st.in_partitions,
        st.marked@[i],
    ensures
        st.is_blocked(i),
        !st.all_clear(),
        !st.closed@[i],
{
}

/// Law: the task's watermark is defined exactly when every input has
/// reported one, and it is then the least of them: no larger than any input,
/// and reported by one of them.
pub proof fn lemma_min_watermark_is_min(ws: Seq<Option<u64>>)
    requires
        ws.len() > 0,
    ensures
        match min_watermark(ws) {
            Some(m) => {
                &&& forall|i: int|
                    0 <= i < ws.len() ==> match #[trigger] ws[i] {
                        Some(w) => m <= w,
                        None => false,
                    }
                &&& exists|i: int| 0 <= i < ws.len() && ws[i] == Some(m)
            },
            None => exists|i: int| 0 <= i < ws.len() && #[trigger] ws[i] is None,
        },
    decreases ws.len(),
{
    if ws.len() > 1 {
        lemma_min_watermark_is_min(ws.drop_last());
        match min_watermark(ws) {
            Some(m) => {
                let prefix = ws.drop_last();
                let pm = min_watermark(prefix)->Some_0;
                assert forall|i: int|
                    0 <= i < ws.len() implies match #[trigger] ws[i] {
                    Some(w) => m <= w,
                    None => false,
                } by {
                    if i < ws.len() - 1 {
                        assert(prefix[i] == ws[i]);
                    }
                }
                if ws.last() == Some(m) {
                    assert(ws[ws.len() - 1] == Some(m));
                } else {
                    let w = choose|i: int| 0 <= i < prefix.len() && prefix[i] == Some(pm);
                    assert(ws[w] == Some(m));
                }
            },
            None => {
                if ws.last() is None {
                    assert(ws[ws.len() - 1] is None);
                } else {
                    let w = choose|i: int|
                        0 <= i < ws.drop_last().len() && #[trigger] ws.drop_last()[i] is None;
                    assert(ws[w] is None);
                }
            },
        }
    }
}

/// Raising one input's watermark never lowers the minimum.
proof fn lemma_min_watermark_update(ws: Seq<Option<u64>>, i: int, w: u64)
    requires
        0 <= i < ws.len(),
        match ws[i] {
            Some(p) => w >= p,
            None => true,
        },
    ensures
        match min_watermark(ws) {
            Some(m) => match min_watermark(ws.update(i, Some(w))) {
                Some(m2) => m2 >= m,
                None => false,
            },
            None => true,
        },
    decreases ws.len(),
{
    if ws.len() <= 1 {
        assert(ws.update(i, Some(w))[0] == Some(w));
    } else {
        let upd = ws.update(i, Some(w));
        if i == ws.len() - 1 {
            assert(upd.drop_last() =~= ws.drop_last());
            assert(upd.last() == Some(w));
        } else {
            assert(upd.drop_last() =~= ws.drop_last().update(i, Some(w)));
            assert(upd.last() == ws.last());
            lemma_min_watermark_update(ws.drop_last(), i, w);
        }
    }
}

/// The state of one subtask's event loop: barrier alignment, end-of-stream
/// counting, watermarks and timers.
pub struct TaskState {
    /// The number of physical input partitions, over all logical inputs.
    pub in_partitions: usize,
    /// The number of logical inputs of the operator (one for a process
    /// operator, two for a co-process operator).
    pub logical_inputs: usize,
    /// Which partitions have delivered their barrier for the in-flight
    /// epoch. A marked partition is parked: nothing is read from it until
    /// the epoch completes.
    pub marked: Vec<bool>,
    /// The epoch being aligned and its stop flag, if alignment has begun.
    pub cur_barrier: Option<(u32, bool)>,
    /// Which partitions have been retired by `Stop` or `EndOfData`.
    pub closed: Vec<bool>,
    /// The last watermark each partition reported.
    pub watermarks: Vec<Option<u64>>,
    /// Pending timers: key, trigger time, payload.
    pub timers: Vec<(u64, u64, u64)>,
    /// The watermark of the last emission, if any.
    pub current_watermark: Option<u64>,
}

impl TaskState {
    /// The task's structural invariant, kept by every step.
    pub open spec fn wf(self) -> bool {
        &&& self.marked@.len() == self.in_partitions
        &&& self.closed@.len() == self.in_partitions
        &&& self.watermarks@.len() == self.in_partitions
        &&& 1 <= self.logical_inputs <= self.in_partitions
        &&& self.in_partitions % self.logical_inputs == 0
        &&& (self.cur_barrier is None ==> forall|i: int|
            0 <= i < self.marked@.len() ==> !self.marked@[i])
        &&& (forall|i: int| 0 <= i < self.marked@.len() && self.marked@[i] ==> !self.closed@[i])
        &&& match self.current_watermark {
            Some(c) => match min_watermark(self.watermarks@) {
                Some(m) => m >= c,
                None => false,
            },
            None => true,
        }
    }

    /// A marked partition is blocked until the epoch completes.
    pub open spec fn is_blocked(self, i: int) -> bool {
        self.marked@[i]
    }

    /// No epoch is being aligned.
    pub open spec fn all_clear(self) -> bool {
        self.cur_barrier is None
    }

    /// Every partition has either delivered its barrier or been retired.
    pub open spec fn all_contributed(self) -> bool {
        forall|i: int| 0 <= i < self.in_partitions ==> self.marked@[i] || self.closed@[i]
    }

    /// Every partition has been retired by its end-of-stream marker.
    pub open spec fn all_closed(self) -> bool {
        forall|i: int| 0 <= i < self.in_partitions ==> self.closed@[i]
    }

    /// A fresh task: nothing marked, nothing closed, no watermarks, no
    /// timers.
    pub fn new(in_partitions: usize, logical_inputs: usize) -> (r: TaskState)
        requires
            1 <= logical_inputs <= in_partitions,
            in_partitions % logical_inputs == 0,
        ensures
            r.wf(),
            r.in_partitions == in_partitions,
            r.logical_inputs == logical_inputs,
            r.cur_barrier is None,
            r.timers@.len() == 0,
            r.current_watermark is None,
            forall|i: int| 0 <= i < in_partitions ==> !r.marked@[i] && !r.closed@[i],
            forall|i: int| 0 <= i < in_partitions ==> r.watermarks@[i] is None,
    {
        let mut marked: Vec<bool> = Vec::new();
        let mut closed: Vec<bool> = Vec::new();
        let mut watermarks: Vec<Option<u64>> = Vec::new();
        let mut i: usize = 0;
        while i < in_partitions
            invariant
                i <= in_partitions,
                marked@.len() == i,
                closed@.len() == i,
                watermarks@.len() == i,
                forall|j: int| 0 <= j < i ==> !marked@[j] && !closed@[j],
                forall|j: int| 0 <= j < i ==> watermarks@[j] is None,
            decreases in_partitions - i,
        {
            marked.push(false);
            closed.push(false);
            watermarks.push(None);
            i = i + 1;
        }
        TaskState {
            in_partitions,
            logical_inputs,
            marked,
            cur_barrier: None,
            closed,
            watermarks,
            timers: Vec::new(),
            current_watermark: None,
        }
    }

    /// Registers a timer to fire once the watermark reaches its trigger
    /// time.
    pub fn register_timer(&mut self, key: u64, time: u64, payload: u64)
        requires
            old(self).wf(),
        ensures
            final(self).wf(),
            (*final(self) == TaskState { timers: final(self).timers, ..*old(self) }),
            final(self).timers@ == old(self).timers@.push((key, time, payload)),
    {
        self.timers.push((key, time, payload));
    }

    /// The task's watermark: the minimum over its inputs, once every input
    /// has reported one.
    pub fn watermark(&self) -> (r: Option<u64>)
        ensures
            r == min_watermark(self.watermarks@),
    {
        let n = self.watermarks.len();
        if n == 0 {
            return None;
        }
        let mut acc: Option<u64> = self.watermarks[0];
        let mut i: usize = 1;
        proof {
            assert(self.watermarks@.take(1) =~= seq![self.watermarks@[0]]);
        }
        while i < n
            invariant
                1 <= i <= n,
                n == self.watermarks@.len(),
                acc == min_watermark(self.watermarks@.take(i as int)),
            decreases n - i,
        {
            proof {
                assert(self.watermarks@.take(i as int + 1).drop_last() =~= self.watermarks@.take(
                    i as int,
                ));
                assert(self.watermarks@.take(i as int + 1).last() == self.watermarks@[i as int]);
            }
            acc = match (acc, self.watermarks[i]) {
                (Some(m), Some(w)) => Some(if w <= m { w } else { m }),
                _ => None,
            };
            i = i + 1;
        }
        proof {
            assert(self.watermarks@.take(n as int) =~= self.watermarks@);
        }
        acc
    }

    /// The logical input a physical partition belongs to.
    pub open spec fn spec_logical_input(self, partition: int) -> int {
        partition / (self.in_partitions as int / self.logical_inputs as int)
    }

    /// Whether every partition has delivered its barrier or been retired.
    fn check_all_contributed(&self) -> (r: bool)
        requires
            self.wf(),
        ensures
            r == self.all_contributed(),
    {
        let mut i: usize = 0;
        let n = self.marked.len();
        while i < n
            invariant
                self.wf(),
                n == self.in_partitions,
                i <= n,
                forall|j: int| 0 <= j < i ==> self.marked@[j] || self.closed@[j],
            decreases n - i,
        {
            if !self.marked[i] && !self.closed[i] {
                return false;
            }
            i = i + 1;
        }
        true
    }

    /// Whether every partition has been retired.
    fn check_all_closed(&self) -> (r: bool)
        requires
            self.wf(),
        ensures
            r == self.all_closed(),
    {
        let mut i: usize = 0;
        let n = self.closed.len();
        while i < n
            invariant
                self.wf(),
                n == self.in_partitions,
                i <= n,
                forall|j: int| 0 <= j < i ==> self.closed@[j],
            decreases n - i,
        {
            if !self.closed[i] {
                return false;
            }
            i = i + 1;
        }
        true
    }

    /// Completes the in-flight epoch: appends the checkpoint action sequence
    /// and resets the alignment state, re-admitting the parked partitions.
    fn complete_checkpoint(&mut self, actions: Vec<Action>, epoch: u32, then_stop: bool) -> (r:
        Vec<Action>)
        requires
            old(self).wf(),
        ensures
            final(self).wf(),
            r@ == actions@ + checkpoint_actions(
                epoch,
                then_stop,
                min_watermark(old(self).watermarks@),
            ),
            final(self).in_partitions == old(self).in_partitions,
            final(self).logical_inputs == old(self).logical_inputs,
            final(self).closed@ == old(self).closed@,
            final(self).watermarks@ == old(self).watermarks@,
            final(self).timers@ == old(self).timers@,
            final(self).current_watermark == old(self).current_watermark,
            final(self).cur_barrier is None,
            final(self).marked@.len() == old(self).marked@.len(),
            forall|i: int| 0 <= i < final(self).marked@.len() ==> !final(self).marked@[i],
    {
        let mut r = actions;
        let ghost base = r@;
        let wm = self.watermark();
        r.push(
            Action::SendCheckpointEvent {
                epoch,
                event: CheckpointEventType::StartedCheckpointing,
            },
        );
        r.push(Action::InvokeHandleCheckpoint { epoch });
        r.push(
            Action::SendCheckpointEvent {
                epoch,
                event: CheckpointEventType::FinishedOperatorSetup,
            },
        );
        r.push(Action::SnapshotState { epoch, watermark: wm });
        r.push(Action::SendCheckpointEvent { epoch, event: CheckpointEventType::FinishedSync });
        r.push(Action::BroadcastBarrier { epoch, then_stop });
        proof {
            assert(r@ =~= base + checkpoint_actions(
                epoch,
                then_stop,
                min_watermark(self.watermarks@),
            ));
        }
        let mut i: usize = 0;
        let n = self.marked.len();
        while i < n
            invariant
                i <= n,
                n == self.marked@.len(),
                n == old(self).marked@.len(),
                old(self).wf(),
                forall|j: int| 0 <= j < i ==> !self.marked@[j],
                self.closed@ == old(self).closed@,
                self.watermarks@ == old(self).watermarks@,
                self.timers@ == old(self).timers@,
                self.current_watermark == old(self).current_watermark,
                self.cur_barrier == old(self).cur_barrier,
                self.in_partitions == old(self).in_partitions,
                self.logical_inputs == old(self).logical_inputs,
                r@ == actions@ + checkpoint_actions(
                    epoch,
                    then_stop,
                    min_watermark(old(self).watermarks@),
                ),
            decreases n - i,
        {
            self.marked.set(i, false);
            i = i + 1;
        }
        self.cur_barrier = None;
        r
    }

    /// Splits the timer table at a watermark: returns the due timers and
    /// keeps the pending ones, each in table order.
    fn take_due_timers(&mut self, wm: u64) -> (r: Vec<(u64, u64, u64)>)
        ensures
            r@ == due_timers(old(self).timers@, wm),
            final(self).timers@ == pending_timers(old(self).timers@, wm),
            (*final(self) == TaskState { timers: final(self).timers, ..*old(self) }),
    {
        let ghost orig = self.timers@;
        let mut pending: Vec<(u64, u64, u64)> = Vec::new();
        let mut due: Vec<(u64, u64, u64)> = Vec::new();
        let n = self.timers.len();
        let mut i: usize = 0;
        proof {
            assert(orig.take(0) =~= Seq::<(u64, u64, u64)>::empty());
        }
        while i < n
            invariant
                i <= n,
                n == self.timers@.len(),
                self.timers@ == orig,
                due@ == due_timers(orig.take(i as int), wm),
                pending@ == pending_timers(orig.take(i as int), wm),
            decreases n - i,
        {
            proof {
                assert(orig.take(i as int + 1).drop_last() =~= orig.take(i as int));
                assert(orig.take(i as int + 1).last() == orig[i as int]);
            }
            let t = self.timers[i];
            if t.1 <= wm {
                due.push(t);
            } else {
                pending.push(t);
            }
            i = i + 1;
        }
        proof {
            assert(orig.take(n as int) =~= orig);
        }
        self.timers = pending;
        due
    }
}

impl TaskState {
    /// One step of the event loop: the next message of one input partition.
    ///
    /// A record is dispatched to its logical input; a record never comes
    /// from a partition that has delivered its barrier for the in-flight
    /// epoch, since such partitions are parked until the epoch completes. A
    /// barrier marks its partition, and when every partition has contributed
    /// exactly one barrier (a retired partition contributes implicitly) the
    /// checkpoint runs and the barrier is broadcast. A watermark updates its
    /// input, and once every input has reported one, the minimum is emitted;
    /// it never falls below an earlier emission. End-of-stream markers
    /// retire their partition, and the last one terminates the task.
    ///
    /// A message from a parked or retired partition, or a barrier for a
    /// second epoch while one is in flight, is a channel-protocol violation:
    /// the step refuses it and the state does not change.
    pub fn step(&mut self, partition: usize, msg: StreamMessage) -> (r: Result<
        (Vec<Action>, ControlOutcome),
        TaskError,
    >)
        requires
            old(self).wf(),
            partition < old(self).in_partitions,
            (match msg {
                StreamMessage::Watermark(w) => match old(self).watermarks@[partition as int] {
                    Some(p) => w >= p,
                    None => true,
                },
                _ => true,
            }),
        ensures
            final(self).wf(),
            final(self).in_partitions == old(self).in_partitions,
            final(self).logical_inputs == old(self).logical_inputs,
            (match r {
                Result::Err(e) => {
                    &&& *final(self) == *old(self)
                    &&& if old(self).closed@[partition as int] {
                        e == TaskError::ClosedPartition
                    } else if old(self).marked@[partition as int] {
                        e == TaskError::BlockedPartition
                    } else {
                        &&& e == TaskError::EpochMismatch
                        &&& match (msg, old(self).cur_barrier) {
                            (StreamMessage::Barrier { epoch, .. }, Some((e0, _))) => epoch != e0,
                            _ => false,
                        }
                    }
                },
                Result::Ok(res) => {
                    &&& !old(self).closed@[partition as int]
                    &&& !old(self).marked@[partition as int]
                    &&& match msg {
                        StreamMessage::Record(rec) => {
                            &&& *final(self) == *old(self)
                            &&& res.1 == ControlOutcome::Continue
                            &&& res.0@.len() == 1
                            &&& (match res.0@[0] {
                                Action::DispatchRecord { logical_input, record } => {
                                    &&& record == rec
                                    &&& logical_input == old(self).spec_logical_input(
                                        partition as int,
                                    )
                                },
                                _ => false,
                            })
                        },
                        StreamMessage::Watermark(w) => {
                            &&& final(self).marked@ == old(self).marked@
                            &&& final(self).closed@ == old(self).closed@
                            &&& final(self).cur_barrier == old(self).cur_barrier
                            &&& final(self).watermarks@ == old(self).watermarks@.update(
                                partition as int,
                                Some(w),
                            )
                            &&& res.1 == ControlOutcome::Continue
                            &&& match min_watermark(final(self).watermarks@) {
                                None => {
                                    &&& res.0@.len() == 0
                                    &&& final(self).timers@ == old(self).timers@
                                    &&& final(self).current_watermark == old(
                                        self,
                                    ).current_watermark
                                },
                                Some(m) => {
                                    &&& res.0@ == watermark_actions(m, old(self).timers@)
                                    &&& final(self).timers@ == pending_timers(old(self).timers@, m)
                                    &&& final(self).current_watermark == Some(m)
                                    &&& match old(self).current_watermark {
                                        Some(c) => m >= c,
                                        None => true,
                                    }
                                },
                            }
                        },
                        StreamMessage::Barrier { epoch, then_stop } => {
                            &&& final(self).watermarks@ == old(self).watermarks@
                            &&& final(self).timers@ == old(self).timers@
                            &&& final(self).current_watermark == old(self).current_watermark
                            &&& final(self).closed@ == old(self).closed@
                            &&& (match old(self).cur_barrier {
                                Some((e0, _)) => e0 == epoch,
                                None => true,
                            })
                            &&& {
                                let started = if old(self).all_clear() {
                                    seq![
                                        Action::SendCheckpointEvent {
                                            epoch,
                                            event: CheckpointEventType::StartedAlignment,
                                        },
                                    ]
                                } else {
                                    Seq::<Action>::empty()
                                };
                                if final(self).all_clear() {
                                    &&& (forall|i: int|
                                        0 <= i < final(self).marked@.len()
                                            ==> !final(self).marked@[i])
                                    &&& (forall|i: int|
                                        0 <= i < old(self).in_partitions && i != partition
                                            ==> old(self).marked@[i] || old(self).closed@[i])
                                    &&& res.0@ == started + checkpoint_actions(
                                        epoch,
                                        then_stop,
                                        min_watermark(old(self).watermarks@),
                                    )
                                    &&& res.1 == if then_stop {
                                        ControlOutcome::Stop
                                    } else {
                                        ControlOutcome::Continue
                                    }
                                } else {
                                    &&& final(self).cur_barrier == Some((epoch, then_stop))
                                    &&& final(self).marked@ == old(self).marked@.update(
                                        partition as int,
                                        true,
                                    )
                                    &&& res.0@ == started
                                    &&& res.1 == ControlOutcome::Continue
                                    &&& exists|i: int|
                                        0 <= i < old(self).in_partitions && i != partition && !old(
                                            self,
                                        ).marked@[i] && !old(self).closed@[i]
                                }
                            }
                        },
                        StreamMessage::Stop | StreamMessage::EndOfData => {
                            &&& final(self).watermarks@ == old(self).watermarks@
                            &&& final(self).timers@ == old(self).timers@
                            &&& final(self).current_watermark == old(self).current_watermark
                            &&& final(self).closed@ == old(self).closed@.update(
                                partition as int,
                                true,
                            )
                            &&& {
                                let eod = msg is EndOfData;
                                if final(self).all_closed() {
                                    &&& final(self).marked@ == old(self).marked@
                                    &&& final(self).cur_barrier == old(self).cur_barrier
                                    &&& res.0@ == seq![
                                        if eod {
                                            Action::BroadcastEndOfData
                                        } else {
                                            Action::BroadcastStop
                                        },
                                    ]
                                    &&& res.1 == if eod {
                                        ControlOutcome::Finish
                                    } else {
                                        ControlOutcome::Stop
                                    }
                                } else {
                                    match old(self).cur_barrier {
                                        Some((e0, ts)) => {
                                            if (forall|i: int|
                                                0 <= i < old(self).in_partitions && i != partition
                                                    ==> old(self).marked@[i] || old(
                                                    self,
                                                ).closed@[i]) {
                                                &&& final(self).all_clear()
                                                &&& (forall|i: int|
                                                    0 <= i < final(self).marked@.len()
                                                        ==> !final(self).marked@[i])
                                                &&& res.0@ == checkpoint_actions(
                                                    e0,
                                                    ts,
                                                    min_watermark(old(self).watermarks@),
                                                )
                                                &&& res.1 == if ts {
                                                    ControlOutcome::Stop
                                                } else {
                                                    ControlOutcome::Continue
                                                }
                                            } else {
                                                &&& final(self).marked@ == old(self).marked@
                                                &&& final(self).cur_barrier == old(
                                                    self,
                                                ).cur_barrier
                                                &&& res.0@.len() == 0
                                                &&& res.1 == ControlOutcome::Continue
                                            }
                                        },
                                        None => {
                                            &&& final(self).marked@ == old(self).marked@
                                            &&& final(self).cur_barrier == old(self).cur_barrier
                                            &&& res.0@.len() == 0
                                            &&& res.1 == ControlOutcome::Continue
                                        },
                                    }
                                }
                            }
                        },
                    }
                },
            }),
    {
        if self.closed[partition] {
            return Err(TaskError::ClosedPartition);
        }
        if self.marked[partition] {
            return Err(TaskError::BlockedPartition);
        }
        match msg {
            StreamMessage::Record(rec) => {
                let li = logical_input_of(partition, self.in_partitions, self.logical_inputs);
                let mut actions: Vec<Action> = Vec::new();
                actions.push(Action::DispatchRecord { logical_input: li, record: rec });
                Ok((actions, ControlOutcome::Continue))
            },
            StreamMessage::Watermark(w) => {
                let ghost prev = *self;
                self.watermarks.set(partition, Some(w));
                proof {
                    lemma_min_watermark_update(prev.watermarks@, partition as int, w);
                }
                match self.watermark() {
                    None => Ok((Vec::new(), ControlOutcome::Continue)),
                    Some(m) => {
                        self.current_watermark = Some(m);
                        let mut actions: Vec<Action> = Vec::new();
                        actions.push(Action::NotifyStateWatermark { watermark: m });
                        let due = self.take_due_timers(m);
                        let ghost due_seq = due@;
                        let n = due.len();
                        let mut k: usize = 0;
                        while k < n
                            invariant
                                k <= n,
                                n == due@.len(),
                                due@ == due_seq,
                                actions@ == seq![Action::NotifyStateWatermark { watermark: m }]
                                    + due_seq.take(k as int).map_values(
                                    |t: (u64, u64, u64)| Action::FireTimer {
                                        key: t.0,
                                        payload: t.2,
                                    },
                                ),
                            decreases n - k,
                        {
                            proof {
                                assert(due_seq.take(k as int + 1).drop_last() =~= due_seq.take(
                                    k as int,
                                ));
                                assert(due_seq.take(k as int + 1).map_values(
                                    |t: (u64, u64, u64)| Action::FireTimer {
                                        key: t.0,
                                        payload: t.2,
                                    },
                                ).drop_last() =~= due_seq.take(k as int).map_values(
                                    |t: (u64, u64, u64)| Action::FireTimer {
                                        key: t.0,
                                        payload: t.2,
                                    },
                                ));
                            }
                            let t = due[k];
                            actions.push(Action::FireTimer { key: t.0, payload: t.2 });
                            proof {
                                assert(actions@ =~= seq![
                                    Action::NotifyStateWatermark { watermark: m },
                                ] + due_seq.take(k as int + 1).map_values(
                                    |t: (u64, u64, u64)| Action::FireTimer {
                                        key: t.0,
                                        payload: t.2,
                                    },
                                ));
                            }
                            k = k + 1;
                        }
                        actions.push(Action::InvokeHandleWatermark { watermark: m });
                        proof {
                            assert(due_seq.take(n as int) =~= due_seq);
                            assert(actions@ =~= watermark_actions(m, prev.timers@));
                        }
                        Ok((actions, ControlOutcome::Continue))
                    },
                }
            },
            StreamMessage::Barrier { epoch, then_stop } => {
                let first = match self.cur_barrier {
                    None => true,
                    Some((e0, _)) => {
                        if e0 != epoch {
                            return Err(TaskError::EpochMismatch);
                        }
                        false
                    },
                };
                let mut actions: Vec<Action> = Vec::new();
                if first {
                    actions.push(
                        Action::SendCheckpointEvent {
                            epoch,
                            event: CheckpointEventType::StartedAlignment,
                        },
                    );
                }
                let ghost prev = *self;
                self.marked.set(partition, true);
                self.cur_barrier = Some((epoch, then_stop));
                if self.check_all_contributed() {
                    let actions = self.complete_checkpoint(actions, epoch, then_stop);
                    proof {
                        if first {
                            assert(actions@ =~= seq![
                                Action::SendCheckpointEvent {
                                    epoch,
                                    event: CheckpointEventType::StartedAlignment,
                                },
                            ] + checkpoint_actions(
                                epoch,
                                then_stop,
                                min_watermark(prev.watermarks@),
                            ));
                        } else {
                            assert(actions@ =~= Seq::<Action>::empty() + checkpoint_actions(
                                epoch,
                                then_stop,
                                min_watermark(prev.watermarks@),
                            ));
                        }
                    }
                    if then_stop {
                        Ok((actions, ControlOutcome::Stop))
                    } else {
                        Ok((actions, ControlOutcome::Continue))
                    }
                } else {
                    proof {
                        let ghost witness = choose|i: int|
                            0 <= i < self.in_partitions && !(self.marked@[i] || self.closed@[i]);
                        assert(witness != partition);
                        if first {
                            assert(actions@ =~= seq![
                                Action::SendCheckpointEvent {
                                    epoch,
                                    event: CheckpointEventType::StartedAlignment,
                                },
                            ]);
                        }
                    }
                    Ok((actions, ControlOutcome::Continue))
                }
            },
            StreamMessage::Stop | StreamMessage::EndOfData => {
                let eod = match msg {
                    StreamMessage::EndOfData => true,
                    _ => false,
                };
                let ghost prev = *self;
                self.closed.set(partition, true);
                if self.check_all_closed() {
                    let mut actions: Vec<Action> = Vec::new();
                    if eod {
                        actions.push(Action::BroadcastEndOfData);
                        Ok((actions, ControlOutcome::Finish))
                    } else {
                        actions.push(Action::BroadcastStop);
                        Ok((actions, ControlOutcome::Stop))
                    }
                } else {
                    let in_flight = match self.cur_barrier {
                        Some(b) => Some(b),
                        None => None,
                    };
                    match in_flight {
                        Some((e0, ts)) => {
                            if self.check_all_contributed() {
                                let actions = self.complete_checkpoint(Vec::new(), e0, ts);
                                proof {
                                    assert(actions@ =~= checkpoint_actions(
                                        e0,
                                        ts,
                                        min_watermark(prev.watermarks@),
                                    ));
                                }
                                if ts {
                                    Ok((actions, ControlOutcome::Stop))
                                } else {
                                    Ok((actions, ControlOutcome::Continue))
                                }
                            } else {
                                proof {
                                    let ghost witness = choose|i: int|
                                        0 <= i < self.in_partitions && !(self.marked@[i]
                                            || self.closed@[i]);
                                    assert(witness != partition);
                                }
                                Ok((Vec::new(), ControlOutcome::Continue))
                            }
                        },
                        None => Ok((Vec::new(), ControlOutcome::Continue)),
                    }
                }
            },
        }
    }
}

/// The multiplexed reader's two sets of input partitions: those that may be
/// read next, and those parked behind their barrier until the epoch
/// completes. A partition moves between the sets in constant time.
pub struct ReadySets {
    pub ready: Vec<usize>,
    pub blocked: Vec<usize>,
}

impl ReadySets {
    /// A fresh reader: every partition ready, none parked.
    pub fn new(in_partitions: usize) -> (r: ReadySets)
        ensures
            r.ready@.len() == in_partitions,
            forall|i: int| 0 <= i < in_partitions ==> r.ready@[i] == i,
            r.blocked@.len() == 0,
    {
        let mut ready: Vec<usize> = Vec::new();
        let mut i: usize = 0;
        while i < in_partitions
            invariant
                i <= in_partitions,
                ready@.len() == i,
                forall|j: int| 0 <= j < i ==> ready@[j] == j,
            decreases in_partitions - i,
        {
            ready.push(i);
            i = i + 1;
        }
        ReadySets { ready, blocked: Vec::new() }
    }

    /// The next partition to read, if any partition is ready.
    pub fn next_ready(&mut self) -> (r: Option<usize>)
        ensures
            match r {
                Some(p) => {
                    &&& old(self).ready@.len() > 0
                    &&& p == old(self).ready@[0]
                    &&& final(self).ready@ == old(self).ready@.skip(1)
                    &&& final(self).blocked@ == old(self).blocked@
                },
                None => {
                    &&& old(self).ready@.len() == 0
                    &&& *final(self) == *old(self)
                },
            },
    {
        if self.ready.len() == 0 {
            None
        } else {
            let p = self.ready.remove(0);
            proof {
                assert(old(self).ready@.remove(0) =~= old(self).ready@.skip(1));
            }
            Some(p)
        }
    }

    /// Re-queues a partition after its message was handled: a partition
    /// that delivered its barrier is parked; otherwise it is re-admitted,
    /// and if the epoch has completed, every parked partition is re-admitted
    /// before it.
    pub fn requeue(&mut self, task: &TaskState, partition: usize)
        requires
            partition < task.in_partitions,
            task.marked@.len() == task.in_partitions,
        ensures
            if task.is_blocked(partition as int) {
                &&& final(self).blocked@ == old(self).blocked@.push(partition)
                &&& final(self).ready@ == old(self).ready@
            } else if task.all_clear() && old(self).blocked@.len() > 0 {
                &&& final(self).ready@ == old(self).ready@ + old(self).blocked@ + seq![partition]
                &&& final(self).blocked@.len() == 0
            } else {
                &&& final(self).ready@ == old(self).ready@.push(partition)
                &&& final(self).blocked@ == old(self).blocked@
            },
    {
        if task.marked[partition] {
            self.blocked.push(partition);
        } else {
            let was_parked = self.blocked.len() > 0;
            let all_clear = match task.cur_barrier {
                None => true,
                Some(_) => false,
            };
            if all_clear && was_parked {
                self.ready.append(&mut self.blocked);
            }
            self.ready.push(partition);
            proof {
                if all_clear && was_parked {
                    assert(self.ready@ =~= old(self).ready@ + old(self).blocked@ + seq![
                        partition,
                    ]);
                }
            }
        }
    }
}

/// The routing of a physical partition to a logical input: partitions are
/// grouped evenly, in order, one group per logical input.
pub fn logical_input_of(partition: usize, in_partitions: usize, logical_inputs: usize) -> (r:
    usize)
    requires
        1 <= logical_inputs <= in_partitions,
        in_partitions % logical_inputs == 0,
        partition < in_partitions,
    ensures
        r == partition as int / (in_partitions as int / logical_inputs as int),
        r < logical_inputs,
{
    let group = in_partitions / logical_inputs;
    proof {
        let p = partition as int;
        let g = in_partitions as int / logical_inputs as int;
        let l = logical_inputs as int;
        assert(g * l == in_partitions as int) by (nonlinear_arith)
            requires
                in_partitions as int % l == 0,
                g == in_partitions as int / l,
                l >= 1,
        ;
        assert(g >= 1) by (nonlinear_arith)
            requires
                g * l == in_partitions as int,
                l >= 1,
                in_partitions as int >= l,
        ;
        lemma_multiply_divide_lt(p, g, l);
    }
    partition / group
}

} // verus!
