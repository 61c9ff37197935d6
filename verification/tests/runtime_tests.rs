//! Operator-runtime scenarios: routing, watermarks, timers, barrier
//! alignment and end-of-stream handling.

use arroyo_core::runtime::{
    logical_input_of, Action, CheckpointEventType, ControlOutcome, ReadySets, RecordItem,
    StreamMessage, TaskError, TaskState,
};

fn rec(value: u64) -> StreamMessage {
    StreamMessage::Record(RecordItem { timestamp: 0, key: 0, value })
}

fn dispatched(actions: &[Action]) -> Vec<(usize, u64)> {
    actions
        .iter()
        .filter_map(|a| match a {
            Action::DispatchRecord { logical_input, record } => Some((*logical_input, record.value)),
            _ => None,
        })
        .collect()
}

#[test]
fn records_route_to_their_logical_input() {
    assert_eq!(logical_input_of(0, 4, 2), 0);
    assert_eq!(logical_input_of(1, 4, 2), 0);
    assert_eq!(logical_input_of(2, 4, 2), 1);
    assert_eq!(logical_input_of(3, 4, 2), 1);
    assert_eq!(logical_input_of(5, 6, 3), 2);

    let mut task = TaskState::new(4, 2);
    let (actions, outcome) = task.step(2, rec(7)).expect("open partition");
    assert_eq!(outcome, ControlOutcome::Continue);
    assert_eq!(dispatched(&actions), vec![(1, 7)]);
}

#[test]
fn watermark_emitted_is_minimum_of_inputs() {
    let mut task = TaskState::new(2, 2);
    let (actions, _) = task.step(0, StreamMessage::Watermark(50)).expect("ok");
    assert!(actions.is_empty(), "one input still has no watermark");

    let (actions, _) = task.step(1, StreamMessage::Watermark(30)).expect("ok");
    assert_eq!(actions[0], Action::NotifyStateWatermark { watermark: 30 });
    assert_eq!(*actions.last().unwrap(), Action::InvokeHandleWatermark { watermark: 30 });

    // the emitted watermark never falls below an earlier emission
    let (actions, _) = task.step(1, StreamMessage::Watermark(40)).expect("ok");
    assert_eq!(actions[0], Action::NotifyStateWatermark { watermark: 40 });
}

#[test]
fn timers_fire_when_watermark_passes_them() {
    let mut task = TaskState::new(1, 1);
    task.register_timer(1, 10, 100);
    task.register_timer(2, 99, 200);
    let (actions, _) = task.step(0, StreamMessage::Watermark(20)).expect("ok");
    assert_eq!(
        actions,
        vec![
            Action::NotifyStateWatermark { watermark: 20 },
            Action::FireTimer { key: 1, payload: 100 },
            Action::InvokeHandleWatermark { watermark: 20 },
        ]
    );
    // the later timer is still pending and fires next time
    let (actions, _) = task.step(0, StreamMessage::Watermark(99)).expect("ok");
    assert_eq!(
        actions,
        vec![
            Action::NotifyStateWatermark { watermark: 99 },
            Action::FireTimer { key: 2, payload: 200 },
            Action::InvokeHandleWatermark { watermark: 99 },
        ]
    );
}

#[test]
fn single_input_barrier_checkpoints_at_once() {
    let mut task = TaskState::new(1, 1);
    let (actions, outcome) = task
        .step(0, StreamMessage::Barrier { epoch: 1, then_stop: false })
        .expect("ok");
    assert_eq!(outcome, ControlOutcome::Continue);
    assert_eq!(
        actions,
        vec![
            Action::SendCheckpointEvent { epoch: 1, event: CheckpointEventType::StartedAlignment },
            Action::SendCheckpointEvent {
                epoch: 1,
                event: CheckpointEventType::StartedCheckpointing
            },
            Action::InvokeHandleCheckpoint { epoch: 1 },
            Action::SendCheckpointEvent {
                epoch: 1,
                event: CheckpointEventType::FinishedOperatorSetup
            },
            Action::SnapshotState { epoch: 1, watermark: None },
            Action::SendCheckpointEvent { epoch: 1, event: CheckpointEventType::FinishedSync },
            Action::BroadcastBarrier { epoch: 1, then_stop: false },
        ]
    );
}

#[test]
fn barrier_with_stop_flag_stops_after_emission() {
    let mut task = TaskState::new(1, 1);
    let (actions, outcome) = task
        .step(0, StreamMessage::Barrier { epoch: 3, then_stop: true })
        .expect("ok");
    assert_eq!(outcome, ControlOutcome::Stop);
    assert_eq!(
        *actions.last().unwrap(),
        Action::BroadcastBarrier { epoch: 3, then_stop: true }
    );
}

#[test]
fn blocked_partition_refuses_reads_until_epoch_completes() {
    let mut task = TaskState::new(2, 2);
    let (actions, _) = task
        .step(0, StreamMessage::Barrier { epoch: 1, then_stop: false })
        .expect("first barrier");
    assert_eq!(
        actions,
        vec![Action::SendCheckpointEvent { epoch: 1, event: CheckpointEventType::StartedAlignment }]
    );
    // the partition delivered its barrier: it is parked, reading from it is
    // a violation, and so is a second barrier for the epoch
    assert_eq!(task.step(0, rec(9)), Err(TaskError::BlockedPartition));
    assert_eq!(
        task.step(0, StreamMessage::Barrier { epoch: 1, then_stop: false }),
        Err(TaskError::BlockedPartition)
    );
    // a barrier for another epoch on the open partition is a violation too
    assert_eq!(
        task.step(1, StreamMessage::Barrier { epoch: 2, then_stop: false }),
        Err(TaskError::EpochMismatch)
    );
    // the other partition still flows
    let (actions, _) = task.step(1, rec(4)).expect("open partition");
    assert_eq!(dispatched(&actions), vec![(1, 4)]);
    // its barrier completes the epoch
    let (actions, outcome) = task
        .step(1, StreamMessage::Barrier { epoch: 1, then_stop: false })
        .expect("second barrier");
    assert_eq!(outcome, ControlOutcome::Continue);
    assert_eq!(
        *actions.last().unwrap(),
        Action::BroadcastBarrier { epoch: 1, then_stop: false }
    );
    // and the parked partition flows again
    let (actions, _) = task.step(0, rec(9)).expect("epoch completed");
    assert_eq!(dispatched(&actions), vec![(0, 9)]);
}

#[test]
fn aligned_checkpoint_through_two_input_operator() {
    // two logical inputs, one partition each: A = 0, B = 1
    let mut task = TaskState::new(2, 2);
    let mut sets = ReadySets::new(2);
    let mut queues: Vec<Vec<StreamMessage>> = vec![
        vec![rec(1), rec(2), StreamMessage::Barrier { epoch: 1, then_stop: false }, rec(3)],
        vec![rec(4), rec(5), StreamMessage::Barrier { epoch: 1, then_stop: false }],
    ];

    let mut seen: Vec<u64> = Vec::new();
    let mut checkpoint_done = false;
    let mut barrier_broadcast = false;
    while let Some(p) = sets.next_ready() {
        if queues[p].is_empty() {
            continue;
        }
        let msg = queues[p].remove(0);
        let (actions, outcome) = task.step(p, msg).expect("protocol kept");
        assert_eq!(outcome, ControlOutcome::Continue);
        for a in &actions {
            match a {
                Action::DispatchRecord { record, .. } => {
                    if barrier_broadcast {
                        assert_eq!(record.value, 3, "only A's parked record comes after");
                    } else {
                        assert!(record.value != 3, "r3 must wait for alignment");
                    }
                    seen.push(record.value);
                }
                Action::InvokeHandleCheckpoint { epoch } => {
                    assert_eq!(*epoch, 1);
                    checkpoint_done = true;
                }
                Action::BroadcastBarrier { epoch, .. } => {
                    assert_eq!(*epoch, 1);
                    assert!(checkpoint_done, "barrier goes out after the checkpoint hook");
                    barrier_broadcast = true;
                }
                _ => {}
            }
        }
        sets.requeue(&task, p);
        if queues[0].is_empty() && queues[1].is_empty() {
            break;
        }
    }
    assert!(barrier_broadcast, "the epoch completed");
    // r1, r2, r4, r5 in per-partition order before the checkpoint; r3 after
    assert_eq!(seen.len(), 5);
    assert_eq!(seen[4], 3);
    assert_eq!(
        seen.iter().filter(|v| **v == 1).count() + seen.iter().filter(|v| **v == 2).count(),
        2
    );
    let pos = |v: u64| seen.iter().position(|x| *x == v).unwrap();
    assert!(pos(1) < pos(2), "per-partition order kept on A");
    assert!(pos(4) < pos(5), "per-partition order kept on B");
}

#[test]
fn a_second_epoch_aligns_after_the_first() {
    let mut task = TaskState::new(2, 2);
    for epoch in 1..=2u32 {
        let (actions, _) = task
            .step(0, StreamMessage::Barrier { epoch, then_stop: false })
            .expect("first barrier");
        assert_eq!(
            actions,
            vec![Action::SendCheckpointEvent { epoch, event: CheckpointEventType::StartedAlignment }]
        );
        let (actions, _) = task
            .step(1, StreamMessage::Barrier { epoch, then_stop: false })
            .expect("second barrier");
        assert_eq!(
            *actions.last().unwrap(),
            Action::BroadcastBarrier { epoch, then_stop: false }
        );
    }
}

#[test]
fn retirement_completion_honours_the_stop_flag() {
    let mut task = TaskState::new(2, 2);
    task.step(0, StreamMessage::Barrier { epoch: 5, then_stop: true })
        .expect("barrier with stop flag");
    let (actions, outcome) = task.step(1, StreamMessage::Stop).expect("ok");
    assert_eq!(
        *actions.last().unwrap(),
        Action::BroadcastBarrier { epoch: 5, then_stop: true }
    );
    assert_eq!(outcome, ControlOutcome::Stop);
}

#[test]
fn stop_markers_count_per_input_and_terminate() {
    let mut task = TaskState::new(2, 2);
    let (actions, outcome) = task.step(0, StreamMessage::Stop).expect("ok");
    assert!(actions.is_empty());
    assert_eq!(outcome, ControlOutcome::Continue);
    // the retired partition refuses further messages
    assert_eq!(task.step(0, rec(1)), Err(TaskError::ClosedPartition));
    let (actions, outcome) = task.step(1, StreamMessage::Stop).expect("ok");
    assert_eq!(actions, vec![Action::BroadcastStop]);
    assert_eq!(outcome, ControlOutcome::Stop);
}

#[test]
fn end_of_data_finishes_the_task() {
    let mut task = TaskState::new(2, 2);
    task.step(0, StreamMessage::EndOfData).expect("ok");
    let (actions, outcome) = task.step(1, StreamMessage::EndOfData).expect("ok");
    assert_eq!(actions, vec![Action::BroadcastEndOfData]);
    assert_eq!(outcome, ControlOutcome::Finish);
}

#[test]
fn stop_marker_retires_partition_for_alignment() {
    // A delivered its barrier; B ends instead of delivering one: B
    // contributes implicitly and the epoch completes
    let mut task = TaskState::new(2, 2);
    task.step(0, StreamMessage::Barrier { epoch: 1, then_stop: false })
        .expect("first barrier");
    let (actions, outcome) = task.step(1, StreamMessage::Stop).expect("ok");
    assert_eq!(outcome, ControlOutcome::Continue);
    assert_eq!(
        *actions.last().unwrap(),
        Action::BroadcastBarrier { epoch: 1, then_stop: false }
    );
}

#[test]
fn ready_sets_park_and_readmit() {
    let mut task = TaskState::new(2, 2);
    let mut sets = ReadySets::new(2);
    assert_eq!(sets.next_ready(), Some(0));
    task.step(0, StreamMessage::Barrier { epoch: 1, then_stop: false })
        .expect("ok");
    sets.requeue(&task, 0);
    assert_eq!(sets.blocked, vec![0], "barrier parks the partition");
    assert_eq!(sets.next_ready(), Some(1));
    task.step(1, StreamMessage::Barrier { epoch: 1, then_stop: false })
        .expect("ok");
    sets.requeue(&task, 1);
    assert_eq!(sets.blocked, Vec::<usize>::new(), "completion re-admits everything");
    assert_eq!(sets.ready, vec![0, 1]);
}
