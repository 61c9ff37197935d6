//! The process scheduler's bucketing, binary framing, the HTTP error
//! mapping, plan types and the event-source decisions.

use arroyo_core::frames::{chunk_binary, NODE_PART_SIZE};
use arroyo_core::ids::WorkerId;
use arroyo_core::plan::{JoinType, PlanType, StructDef, StructField};
use arroyo_core::process::{slot_groups, ProcessSchedulerState, FIRST_PROCESS_WORKER_ID};
use arroyo_core::rest::{error_resp_for, http_status, internal_error_resp, RpcCode};
use arroyo_core::sse::{
    note_event_id, serialization_mode_of, should_emit_event, sse_control_decision,
    ConfigSerializationMode, ErrorRateLimiter, SSESourceState, SerializationMode,
    SourceControlMessage, SourceFinishType, SseSourceConfig, StopMode, ERROR_REPORT_WINDOW_MS,
};

#[test]
fn slot_buckets_cover_the_request() {
    assert_eq!(slot_groups(0), Vec::<usize>::new());
    assert_eq!(slot_groups(4), vec![4]);
    assert_eq!(slot_groups(16), vec![16]);
    assert_eq!(slot_groups(20), vec![16, 4]);
    assert_eq!(slot_groups(48), vec![16, 16, 16]);
    assert_eq!(slot_groups(33).len(), 3, "ceiling of 33 over 16");
}

#[test]
fn process_workers_get_fresh_sequential_ids() {
    let mut state = ProcessSchedulerState::new();
    let a = state.add_worker("job-a".to_string(), 1);
    let b = state.add_worker("job-a".to_string(), 1);
    let c = state.add_worker("job-b".to_string(), 2);
    assert_eq!(a, WorkerId(FIRST_PROCESS_WORKER_ID));
    assert_eq!(b, WorkerId(FIRST_PROCESS_WORKER_ID + 1));
    assert_eq!(c, WorkerId(FIRST_PROCESS_WORKER_ID + 2));

    assert_eq!(state.workers_for_job(&"job-a".to_string(), None), vec![a, b]);
    assert_eq!(state.workers_for_job(&"job-a".to_string(), Some(1)), vec![a, b]);
    assert_eq!(state.workers_for_job(&"job-a".to_string(), Some(9)), Vec::<WorkerId>::new());

    assert!(state.remove_worker(a));
    assert!(!state.remove_worker(a), "a second removal finds nothing");
    assert_eq!(state.workers_for_job(&"job-a".to_string(), None), vec![b]);
}

#[test]
fn stopping_a_job_removes_all_its_process_workers() {
    let mut state = ProcessSchedulerState::new();
    let a = state.add_worker("job-a".to_string(), 1);
    let b = state.add_worker("job-b".to_string(), 1);
    let c = state.add_worker("job-a".to_string(), 2);
    assert_eq!(state.remove_workers_for_job(&"job-a".to_string(), None), vec![a, c]);
    assert_eq!(state.workers_for_job(&"job-b".to_string(), None), vec![b]);
    assert_eq!(state.workers.len(), 1);
}

#[test]
fn chunking_an_empty_binary_makes_no_frames() {
    let binary: Vec<u8> = Vec::new();
    assert!(chunk_binary(&binary).is_empty());
}

#[test]
fn chunking_a_small_binary_makes_one_final_frame() {
    let binary = vec![1u8, 2, 3];
    let frames = chunk_binary(&binary);
    assert_eq!(frames.len(), 1);
    assert_eq!(frames[0].part, 0);
    assert_eq!(frames[0].data, binary);
    assert!(!frames[0].has_more);
}

#[test]
fn chunking_splits_at_the_part_size() {
    let mut binary = vec![7u8; NODE_PART_SIZE];
    binary.push(9);
    let frames = chunk_binary(&binary);
    assert_eq!(frames.len(), 2);
    assert_eq!(frames[0].data.len(), NODE_PART_SIZE);
    assert!(frames[0].has_more);
    assert_eq!(frames[1].part, 1);
    assert_eq!(frames[1].data, vec![9]);
    assert!(!frames[1].has_more);
    let joined: Vec<u8> = frames.iter().flat_map(|f| f.data.iter().copied()).collect();
    assert_eq!(joined, binary, "the frames carry exactly the binary");
}

#[test]
fn exact_multiple_of_part_size_has_no_empty_tail() {
    let binary = vec![7u8; NODE_PART_SIZE];
    let frames = chunk_binary(&binary);
    assert_eq!(frames.len(), 1);
    assert!(!frames[0].has_more);
}

#[test]
fn http_status_mapping_follows_the_table() {
    assert_eq!(http_status(RpcCode::InvalidArgument), 400);
    assert_eq!(http_status(RpcCode::OutOfRange), 400);
    assert_eq!(http_status(RpcCode::Unauthenticated), 401);
    assert_eq!(http_status(RpcCode::PermissionDenied), 403);
    assert_eq!(http_status(RpcCode::NotFound), 404);
    assert_eq!(http_status(RpcCode::AlreadyExists), 409);
    assert_eq!(http_status(RpcCode::Aborted), 409);
    assert_eq!(http_status(RpcCode::FailedPrecondition), 412);
    assert_eq!(http_status(RpcCode::Cancelled), 408);
    assert_eq!(http_status(RpcCode::DeadlineExceeded), 504);
    assert_eq!(http_status(RpcCode::ResourceExhausted), 429);
    assert_eq!(http_status(RpcCode::Unimplemented), 501);
    assert_eq!(http_status(RpcCode::Unavailable), 503);
    assert_eq!(http_status(RpcCode::Unknown), 500);
    assert_eq!(http_status(RpcCode::Internal), 500);
    assert_eq!(http_status(RpcCode::DataLoss), 500);
}

#[test]
fn error_responses_carry_status_and_message() {
    let resp = error_resp_for(RpcCode::NotFound, "no such node".to_string());
    assert_eq!(resp.status_code, 404);
    assert_eq!(resp.message, "no such node");
    let resp = internal_error_resp();
    assert_eq!(resp.status_code, 500);
    assert_eq!(resp.message, "Something went wrong");
}

fn named_def(name: &str) -> StructDef {
    StructDef {
        name: Some(name.to_string()),
        fields: vec![StructField {
            name: "x".to_string(),
            data_type: "u64".to_string(),
            nullable: false,
        }],
    }
}

#[test]
fn plan_type_updating_is_recognised() {
    let t = PlanType::Unkeyed(named_def("V"));
    assert!(!t.is_updating());
    let t = PlanType::Updating(Box::new(t));
    assert!(t.is_updating());
}

#[test]
fn key_struct_names_come_from_the_key() {
    let t = PlanType::Unkeyed(named_def("V"));
    assert!(t.get_key_struct_names().is_empty());
    let t = PlanType::Keyed { key: named_def("K"), value: named_def("V") };
    assert_eq!(t.get_key_struct_names(), vec!["K".to_string()]);
    let t = PlanType::Updating(Box::new(t));
    assert_eq!(t.get_key_struct_names(), vec!["K".to_string()]);
}

#[test]
fn all_types_are_deduplicated() {
    let t = PlanType::Keyed { key: named_def("S"), value: named_def("S") };
    assert_eq!(t.get_all_types().len(), 1, "equal key and value count once");
    let t = PlanType::KeyedPair {
        key: named_def("K"),
        left_value: named_def("L"),
        right_value: named_def("R"),
        join_type: JoinType::Inner,
    };
    assert_eq!(t.get_all_types().len(), 3);
}

#[test]
fn with_key_rekeys_and_with_value_unkeys() {
    let t = PlanType::Unkeyed(named_def("V"));
    let keyed = t.with_key(named_def("K"));
    match &keyed {
        PlanType::Keyed { key, value } => {
            assert_eq!(key.name, Some("K".to_string()));
            assert_eq!(value.name, Some("V".to_string()));
        }
        _ => panic!("expected a keyed type"),
    }
    let revalued = keyed.with_value(named_def("W"));
    match &revalued {
        PlanType::Unkeyed(v) => assert_eq!(v.name, Some("W".to_string())),
        _ => panic!("a revalued keyed type loses its key"),
    }
    let upd = PlanType::Updating(Box::new(PlanType::Unkeyed(named_def("V"))));
    match upd.with_key(named_def("K")) {
        PlanType::Updating(inner) => match *inner {
            PlanType::Keyed { .. } => {}
            _ => panic!("the key goes inside the update wrapper"),
        },
        _ => panic!("updating stays updating"),
    }
}

#[test]
fn sse_config_owns_its_parts() {
    let config = SseSourceConfig::new(
        "https://example.test/stream",
        vec![("x-client", "controller")],
        vec!["update", "delete"],
        SerializationMode::Json,
    );
    assert_eq!(config.url, "https://example.test/stream");
    assert_eq!(config.headers, vec![("x-client".to_string(), "controller".to_string())]);
    assert_eq!(config.events, vec!["update".to_string(), "delete".to_string()]);
    assert_eq!(config.serialization_mode, SerializationMode::Json);
}

#[test]
fn sse_state_defaults_to_no_event_seen() {
    let state = SSESourceState::default();
    assert!(state.last_id.is_none());
}

#[test]
fn sse_event_ids_are_remembered() {
    let mut state = SSESourceState::default();
    note_event_id(&mut state, None);
    assert!(state.last_id.is_none());
    note_event_id(&mut state, Some("ev-17".to_string()));
    assert_eq!(state.last_id, Some("ev-17".to_string()));
    note_event_id(&mut state, None);
    assert_eq!(state.last_id, Some("ev-17".to_string()));
}

#[test]
fn sse_event_filter_matches_configured_types() {
    let none: Vec<String> = Vec::new();
    assert!(should_emit_event(&none, &"update".to_string()));
    let some = vec!["update".to_string(), "delete".to_string()];
    assert!(should_emit_event(&some, &"delete".to_string()));
    assert!(!should_emit_event(&some, &"insert".to_string()));
}

#[test]
fn sse_control_decisions() {
    let (snapshot, finish) =
        sse_control_decision(&SourceControlMessage::Checkpoint { epoch: 4, then_stop: false });
    assert!(snapshot);
    assert_eq!(finish, None);
    let (snapshot, finish) =
        sse_control_decision(&SourceControlMessage::Checkpoint { epoch: 4, then_stop: true });
    assert!(snapshot);
    assert_eq!(finish, Some(SourceFinishType::Immediate));
    let (snapshot, finish) =
        sse_control_decision(&SourceControlMessage::Stop { mode: StopMode::Graceful });
    assert!(!snapshot);
    assert_eq!(finish, Some(SourceFinishType::Graceful));
    let (snapshot, finish) =
        sse_control_decision(&SourceControlMessage::Stop { mode: StopMode::Immediate });
    assert!(!snapshot);
    assert_eq!(finish, Some(SourceFinishType::Immediate));
}

#[test]
fn deserialization_failures_report_once_per_window() {
    let mut limiter = ErrorRateLimiter::new(0);
    assert_eq!(limiter.note_failure(1_000), None);
    assert_eq!(limiter.note_failure(2_000), None);
    assert_eq!(
        limiter.note_failure(ERROR_REPORT_WINDOW_MS + 1),
        Some(3),
        "one aggregated report with the count"
    );
    assert_eq!(limiter.errors, 0, "the count starts over");
    assert_eq!(limiter.note_failure(ERROR_REPORT_WINDOW_MS + 2), None);
}

#[test]
fn sse_serialization_modes_map_over() {
    assert_eq!(serialization_mode_of(ConfigSerializationMode::Json), SerializationMode::Json);
    assert_eq!(
        serialization_mode_of(ConfigSerializationMode::JsonSchemaRegistry),
        SerializationMode::JsonSchemaRegistry
    );
    assert_eq!(
        serialization_mode_of(ConfigSerializationMode::RawJson),
        SerializationMode::RawJson
    );
}
