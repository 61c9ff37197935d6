//! Scheduler scenarios: placement, capacity, rollback, liveness, stop
//! semantics and slot accounting.

use arroyo_core::ids::{NodeId, WorkerId};
use arroyo_core::placement::{
    abort_placement, commit_worker, next_node, start_placement, start_workers, total_free_slots,
    Placement, SchedulerError,
};
use arroyo_core::rest::RpcCode;
use arroyo_core::scheduler::{
    stop_worker_decision, NodeSchedulerState, StopError, StopReply, HEARTBEAT_WINDOW_MS,
};

fn fleet(caps: &[(u64, usize)], now: u64) -> NodeSchedulerState {
    let mut state = NodeSchedulerState::new();
    for (id, slots) in caps {
        state.register_node(NodeId(*id), *slots, format!("node-{}", id), now);
    }
    state
}

fn free_of(state: &NodeSchedulerState, id: u64) -> usize {
    state
        .nodes
        .iter()
        .find(|n| n.id == NodeId(id))
        .expect("node missing")
        .free_slots
}

fn begin(state: &mut NodeSchedulerState, slots: usize, now: u64) -> Result<Placement, SchedulerError> {
    start_placement(state, "job-1".to_string(), 1, slots, now)
}

#[test]
fn placement_fits_one_node() {
    let mut state = fleet(&[(1, 16)], 0);
    let mut p = begin(&mut state, 4, 0).expect("capacity is there");
    let (node, slots_here, _addr) = next_node(&state, &p);
    assert_eq!(node, NodeId(1));
    assert_eq!(slots_here, 4);
    commit_worker(&mut state, &mut p, node, WorkerId(200), slots_here);
    assert_eq!(p.remaining, 0);
    assert_eq!(free_of(&state, 1), 12);
    assert_eq!(state.workers.len(), 1);
}

#[test]
fn best_fit_across_two_nodes() {
    let mut state = fleet(&[(1, 16), (2, 8)], 0);
    let mut p = begin(&mut state, 20, 0).expect("capacity is there");

    let (node, slots_here, _) = next_node(&state, &p);
    assert_eq!(node, NodeId(1), "the fuller node goes first");
    assert_eq!(slots_here, 16);
    commit_worker(&mut state, &mut p, node, WorkerId(200), slots_here);

    let (node, slots_here, _) = next_node(&state, &p);
    assert_eq!(node, NodeId(2));
    assert_eq!(slots_here, 4);
    commit_worker(&mut state, &mut p, node, WorkerId(201), slots_here);

    assert_eq!(p.remaining, 0);
    assert_eq!(free_of(&state, 1), 0);
    assert_eq!(free_of(&state, 2), 4);
    assert_eq!(state.workers.len(), 2, "exactly two workers created");
}

#[test]
fn zero_slot_request_places_nothing() {
    let mut state = fleet(&[(1, 16)], 0);
    let p = begin(&mut state, 0, 0).expect("nothing to place");
    assert_eq!(p.remaining, 0);
    assert_eq!(free_of(&state, 1), 16);
    assert!(state.workers.is_empty());
}

#[test]
fn insufficient_capacity() {
    let mut state = fleet(&[(1, 16), (2, 8)], 0);
    match begin(&mut state, 32, 0) {
        Err(SchedulerError::NotEnoughSlots { slots_needed }) => assert_eq!(slots_needed, 8),
        _ => panic!("expected NotEnoughSlots"),
    }
    assert_eq!(free_of(&state, 1), 16, "accounting untouched");
    assert_eq!(free_of(&state, 2), 8);
}

#[test]
fn mid_placement_failure_rolls_back() {
    let mut state = fleet(&[(1, 16), (2, 16)], 0);
    let mut p = begin(&mut state, 24, 0).expect("capacity is there");

    let (node, slots_here, _) = next_node(&state, &p);
    commit_worker(&mut state, &mut p, node, WorkerId(200), slots_here);
    assert_eq!(slots_here, 16);
    let taken_from = node;
    assert_eq!(free_of(&state, taken_from.0), 0);

    // the start RPC to the second node fails: release everything
    abort_placement(&mut state, p);
    assert_eq!(free_of(&state, 1), 16, "first node restored");
    assert_eq!(free_of(&state, 2), 16);
    for n in &state.nodes {
        assert!(n.scheduled_slots.is_empty());
    }
}

#[test]
fn stale_node_evicted_before_placement() {
    let mut state = fleet(&[(1, 16)], 0);
    let now = HEARTBEAT_WINDOW_MS + 1_000;
    match begin(&mut state, 4, now) {
        Err(SchedulerError::NotEnoughSlots { slots_needed }) => assert_eq!(slots_needed, 4),
        _ => panic!("expected NotEnoughSlots after eviction"),
    }
    assert!(state.nodes.is_empty(), "the stale node is gone");
}

#[test]
fn heartbeat_keeps_node_alive() {
    let mut state = fleet(&[(1, 16)], 0);
    assert!(state.heartbeat_node(NodeId(1), 10_000).is_ok());
    let p = begin(&mut state, 4, 35_000).expect("heartbeat at 10 s keeps it until 40 s");
    assert_eq!(p.remaining, 4);
    assert_eq!(state.nodes.len(), 1);
}

#[test]
fn heartbeat_for_unknown_node_fails() {
    let mut state = fleet(&[(1, 16)], 0);
    assert_eq!(state.heartbeat_node(NodeId(9), 5), Err(RpcCode::NotFound));
}

#[test]
fn register_node_is_idempotent() {
    let mut state = fleet(&[(1, 16)], 0);
    state.register_node(NodeId(1), 999, "elsewhere".to_string(), 5);
    assert_eq!(state.nodes.len(), 1);
    assert_eq!(free_of(&state, 1), 16, "the original registration stands");
}

#[test]
fn worker_finished_releases_slots() {
    let mut state = fleet(&[(1, 16)], 0);
    let mut p = begin(&mut state, 4, 0).expect("capacity");
    commit_worker(&mut state, &mut p, NodeId(1), WorkerId(200), 4);
    assert_eq!(free_of(&state, 1), 12);

    state.worker_finished(NodeId(1), WorkerId(200), 4);
    assert_eq!(free_of(&state, 1), 16);
    assert!(state.workers.is_empty());
}

#[test]
fn release_for_unknown_worker_is_ignored() {
    let mut state = fleet(&[(1, 16)], 0);
    state.worker_finished(NodeId(1), WorkerId(777), 4);
    assert_eq!(free_of(&state, 1), 16);
}

#[test]
fn workers_for_job_filters_by_job_run_and_running() {
    let mut state = fleet(&[(1, 16)], 0);
    let mut p = start_placement(&mut state, "job-a".to_string(), 1, 2, 0).expect("capacity");
    commit_worker(&mut state, &mut p, NodeId(1), WorkerId(200), 2);
    let mut p = start_placement(&mut state, "job-a".to_string(), 2, 2, 0).expect("capacity");
    commit_worker(&mut state, &mut p, NodeId(1), WorkerId(201), 2);
    let mut p = start_placement(&mut state, "job-b".to_string(), 1, 2, 0).expect("capacity");
    commit_worker(&mut state, &mut p, NodeId(1), WorkerId(202), 2);

    let all_a = state.workers_for_job(&"job-a".to_string(), None);
    assert_eq!(all_a, vec![WorkerId(200), WorkerId(201)]);
    let run2 = state.workers_for_job(&"job-a".to_string(), Some(2));
    assert_eq!(run2, vec![WorkerId(201)]);

    state.mark_stopped(WorkerId(200));
    let all_a = state.workers_for_job(&"job-a".to_string(), None);
    assert_eq!(all_a, vec![WorkerId(201)], "a stopped worker no longer counts");
}

#[test]
fn stop_decision_unreachable_peer_counts_as_stopped() {
    assert!(stop_worker_decision(None, false).is_ok());
    assert!(stop_worker_decision(None, true).is_ok());
}

#[test]
fn stop_decision_accepted() {
    assert!(stop_worker_decision(Some(StopReply::Accepted), false).is_ok());
}

#[test]
fn stop_decision_not_found_needs_force() {
    assert_eq!(
        stop_worker_decision(Some(StopReply::NotFound), false),
        Err(StopError::NotFoundWithoutForce)
    );
    assert!(stop_worker_decision(Some(StopReply::NotFound), true).is_ok());
}

#[test]
fn stop_decision_stop_failed_is_fatal() {
    assert_eq!(
        stop_worker_decision(Some(StopReply::StopFailed), true),
        Err(StopError::StopFailed)
    );
}

#[test]
fn start_workers_commits_exactly_the_request() {
    let mut state = fleet(&[(1, 16), (2, 8)], 0);
    let replies = vec![Ok(200), Ok(201)];
    let assigned = start_workers(&mut state, "job-1".to_string(), 1, 20, 0, &replies)
        .expect("capacity is there and both nodes answered");
    let total: usize = assigned.iter().map(|(_, _, s)| s).sum();
    assert_eq!(total, 20);
    assert_eq!(assigned.len(), 2);
    assert_eq!(free_of(&state, 1), 0);
    assert_eq!(free_of(&state, 2), 4);
    assert_eq!(
        state.workers_for_job(&"job-1".to_string(), Some(1)),
        vec![WorkerId(200), WorkerId(201)]
    );
}

#[test]
fn start_workers_rolls_back_on_a_failing_node() {
    let mut state = fleet(&[(1, 16), (2, 16)], 0);
    let replies = vec![Ok(300), Err("connection refused".to_string())];
    match start_workers(&mut state, "job-1".to_string(), 1, 24, 0, &replies) {
        Err(SchedulerError::Other(_)) => {}
        _ => panic!("expected a transient failure"),
    }
    assert_eq!(free_of(&state, 1), 16, "the slots taken first came back");
    assert_eq!(free_of(&state, 2), 16);
}

#[test]
fn start_workers_rejects_a_duplicate_worker_id() {
    let mut state = fleet(&[(1, 16), (2, 16)], 0);
    let replies = vec![Ok(300), Ok(300)];
    match start_workers(&mut state, "job-1".to_string(), 1, 24, 0, &replies) {
        Err(SchedulerError::Other(_)) => {}
        _ => panic!("a reused worker id must fail the call"),
    }
    assert_eq!(free_of(&state, 1), 16);
    assert_eq!(free_of(&state, 2), 16);
}

#[test]
fn accounting_invariant_holds_at_observable_states() {
    let mut state = fleet(&[(1, 16), (2, 8)], 0);
    let check = |state: &NodeSchedulerState| {
        for n in &state.nodes {
            let scheduled: usize = n.scheduled_slots.iter().map(|(_, s)| s).sum();
            assert_eq!(n.free_slots + scheduled, n.capacity);
        }
    };
    check(&state);
    let mut p = begin(&mut state, 20, 0).expect("capacity");
    commit_worker(&mut state, &mut p, NodeId(1), WorkerId(200), 16);
    check(&state);
    commit_worker(&mut state, &mut p, NodeId(2), WorkerId(201), 4);
    check(&state);
    state.worker_finished(NodeId(1), WorkerId(200), 16);
    check(&state);
    state.worker_finished(NodeId(2), WorkerId(201), 4);
    check(&state);
    assert_eq!(total_free_slots(&state), 24);
}
