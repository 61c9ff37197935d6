//! The controller-visible state and the control-plane decisions of the
//! server-sent-events source operator. Reading the event stream itself is
//! I/O and stays with the caller, which feeds each event and each control
//! message through the decision functions here.

use vstd::prelude::*;

verus! {

/// What the source persists across checkpoints: the identifier of the last
/// event it saw, so a restart can resume the stream after it.
pub struct SSESourceState {
    pub last_id: Option<String>,
}

impl Default for SSESourceState {
    /// A fresh source: no event seen yet.
    fn default() -> (r: SSESourceState)
        ensures
            r.last_id is None,
    {
        SSESourceState { last_id: None }
    }
}

/// How the bytes of a record are encoded.
#[derive(Clone, Copy, Debug, PartialEq, Eq, Structural)]
pub enum SerializationMode {
    Json,
    JsonSchemaRegistry,
    RawJson,
}

/// The encodings a source configuration may name. `DebeziumJson` and
/// `Parquet` have no meaning for an event-stream source.
#[derive(Clone, Copy, Debug, PartialEq, Eq, Structural)]
pub enum ConfigSerializationMode {
    Json,
    JsonSchemaRegistry,
    RawJson,
    DebeziumJson,
    Parquet,
}

/// The encoding a configuration entry asks for. An event-stream source can
/// only deserialize the JSON family; the caller must reject the others
/// before the source is built.
pub fn serialization_mode_of(m: ConfigSerializationMode) -> (r: SerializationMode)
    requires
        m != ConfigSerializationMode::DebeziumJson,
        m != ConfigSerializationMode::Parquet,
    ensures
        m == ConfigSerializationMode::Json ==> r == SerializationMode::Json,
        m == ConfigSerializationMode::JsonSchemaRegistry ==> r
            == SerializationMode::JsonSchemaRegistry,
        m == ConfigSerializationMode::RawJson ==> r == SerializationMode::RawJson,
{
    match m {
        ConfigSerializationMode::Json => SerializationMode::Json,
        ConfigSerializationMode::JsonSchemaRegistry => SerializationMode::JsonSchemaRegistry,
        ConfigSerializationMode::RawJson => SerializationMode::RawJson,
        _ => SerializationMode::Json,
    }
}

/// What an event-stream source is built from: where to connect, which
/// headers to send, which event types to keep (all of them, when empty),
/// and how to decode the payloads.
pub struct SseSourceConfig {
    pub url: String,
    pub headers: Vec<(String, String)>,
    pub events: Vec<String>,
    pub serialization_mode: SerializationMode,
}

impl SseSourceConfig {
    /// Builds a source configuration from borrowed parts.
    pub fn new(
        url: &str,
        headers: Vec<(&str, &str)>,
        events: Vec<&str>,
        serialization_mode: SerializationMode,
    ) -> (r: SseSourceConfig)
        ensures
            r.url@ == url@,
            r.headers@.len() == headers@.len(),
            forall|i: int|
                0 <= i < headers@.len() ==> (#[trigger] r.headers@[i]).0@ == headers@[i].0@
                    && r.headers@[i].1@ == headers@[i].1@,
            r.events@.len() == events@.len(),
            forall|i: int| 0 <= i < events@.len() ==> (#[trigger] r.events@[i])@ == events@[i]@,
            r.serialization_mode == serialization_mode,
    {
        let mut owned_headers: Vec<(String, String)> = Vec::new();
        let mut i: usize = 0;
        let n = headers.len();
        while i < n
            invariant
                i <= n,
                n == headers@.len(),
                owned_headers@.len() == i,
                forall|j: int|
                    0 <= j < i ==> (#[trigger] owned_headers@[j]).0@ == headers@[j].0@
                        && owned_headers@[j].1@ == headers@[j].1@,
            decreases n - i,
        {
            let (k, v) = headers[i];
            owned_headers.push((k.to_owned(), v.to_owned()));
            i = i + 1;
        }
        let mut owned_events: Vec<String> = Vec::new();
        let mut i: usize = 0;
        let n = events.len();
        while i < n
            invariant
                i <= n,
                n == events@.len(),
                owned_events@.len() == i,
                forall|j: int| 0 <= j < i ==> (#[trigger] owned_events@[j])@ == events@[j]@,
            decreases n - i,
        {
            owned_events.push(events[i].to_owned());
            i = i + 1;
        }
        SseSourceConfig {
            url: url.to_owned(),
            headers: owned_headers,
            events: owned_events,
            serialization_mode,
        }
    }
}

/// How a stop was requested.
#[derive(Clone, Copy, Debug, PartialEq, Eq, Structural)]
pub enum StopMode {
    /// Finish draining, then stop.
    Graceful,
    /// Stop at once.
    Immediate,
}

/// A control message a source receives from its controller.
pub enum SourceControlMessage {
    /// Take part in the checkpoint of an epoch.
    Checkpoint { epoch: u32, then_stop: bool },
    Stop { mode: StopMode },
    /// Commit of an earlier epoch; sources never receive one.
    Commit { epoch: u32 },
}

/// How a source's run ends.
#[derive(Clone, Copy, Debug, PartialEq, Eq, Structural)]
pub enum SourceFinishType {
    /// Drain downstream operators through a stop marker.
    Graceful,
    /// Stop without draining.
    Immediate,
    /// The source is exhausted; finish the pipeline.
    Final,
}

/// Decides what a control message means for the source: whether to snapshot
/// its state into the checkpoint, and whether (and how) to finish. Sources
/// never receive commit messages; one would be a protocol violation.
pub fn sse_control_decision(msg: &SourceControlMessage) -> (r: (bool, Option<SourceFinishType>))
    requires
        !(msg matches SourceControlMessage::Commit { .. }),
    ensures
        match *msg {
            SourceControlMessage::Checkpoint { then_stop, .. } => r.0 && r.1 == if then_stop {
                Some(SourceFinishType::Immediate)
            } else {
                None::<SourceFinishType>
            },
            SourceControlMessage::Stop { mode } => !r.0 && r.1 == Some(
                match mode {
                    StopMode::Graceful => SourceFinishType::Graceful,
                    StopMode::Immediate => SourceFinishType::Immediate,
                },
            ),
            SourceControlMessage::Commit { .. } => false,
        },
{
    match msg {
        SourceControlMessage::Checkpoint { then_stop, .. } => {
            if *then_stop {
                (true, Some(SourceFinishType::Immediate))
            } else {
                (true, None)
            }
        },
        SourceControlMessage::Stop { mode } => {
            match mode {
                StopMode::Graceful => (false, Some(SourceFinishType::Graceful)),
                StopMode::Immediate => (false, Some(SourceFinishType::Immediate)),
            }
        },
        SourceControlMessage::Commit { .. } => (false, None),
    }
}

/// Whether one event of the stream is wanted: every event is, unless the
/// configuration names the event types to keep.
pub fn should_emit_event(events: &Vec<String>, event_type: &String) -> (r: bool)
    ensures
        r == (events@.len() == 0 || exists|i: int|
            0 <= i < events@.len() && events@[i]@ == event_type@),
{
    if events.len() == 0 {
        return true;
    }
    let mut i: usize = 0;
    let n = events.len();
    while i < n
        invariant
            i <= n,
            n == events@.len(),
            forall|j: int| 0 <= j < i ==> events@[j]@ != event_type@,
        decreases n - i,
    {
        if events[i].eq(event_type) {
            return true;
        }
        i = i + 1;
    }
    false
}

/// One aggregated failure report goes out at most once per this many
/// milliseconds.
pub const ERROR_REPORT_WINDOW_MS: u64 = 30000;

/// Aggregates deserialization failures: each one is locally recoverable, so
/// it is counted and processing goes on; at most one report per window goes
/// to the controller, carrying the count since the last one.
pub struct ErrorRateLimiter {
    pub errors: u64,
    pub last_reported: u64,
}

impl ErrorRateLimiter {
    /// A fresh limiter: nothing counted, the window starts now.
    pub fn new(now: u64) -> (r: ErrorRateLimiter)
        ensures
            r.errors == 0,
            r.last_reported == now,
    {
        ErrorRateLimiter { errors: 0, last_reported: now }
    }

    /// Notes one failure. Once the window since the last report has passed,
    /// the aggregated count comes back to be reported, and the window
    /// restarts; otherwise the failure is only counted.
    pub fn note_failure(&mut self, now: u64) -> (r: Option<u64>)
        requires
            old(self).errors < u64::MAX,
            now >= old(self).last_reported,
        ensures
            if now - old(self).last_reported > ERROR_REPORT_WINDOW_MS {
                &&& r == Some((old(self).errors + 1) as u64)
                &&& final(self).errors == 0
                &&& final(self).last_reported == now
            } else {
                &&& r is None
                &&& final(self).errors == old(self).errors + 1
                &&& final(self).last_reported == old(self).last_reported
            },
    {
        self.errors = self.errors + 1;
        if now - self.last_reported > ERROR_REPORT_WINDOW_MS {
            let count = self.errors;
            self.errors = 0;
            self.last_reported = now;
            Some(count)
        } else {
            None
        }
    }
}

/// Notes the identifier of an event, so that the next snapshot resumes
/// after it; an event without one leaves the state alone.
pub fn note_event_id(state: &mut SSESourceState, id: Option<String>)
    ensures
        match id {
            Some(i) => final(state).last_id == Some(i),
            None => *final(state) == *old(state),
        },
{
    match id {
        Option::Some(i) => {
            state.last_id = Some(i);
        },
        Option::None => {},
    }
}

} // verus!
