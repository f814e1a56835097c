//! Remote upscaling jobs: submissions, status snapshots and the events the
//! watcher forwards, with the defaults of a job's parameters.
use vstd::prelude::*;
use crate::split::opt_text;
use crate::text::concat2;

verus! {

/// Where a job's input lives.
#[derive(Debug)]
pub struct JobInputPayload {
    pub kind: String,
    pub path: String,
}

/// The parameters of an upscaling job.
#[derive(Debug)]
pub struct JobParamsPayload {
    pub scale: u32,
    pub model: String,
    pub denoise: String,
    pub output_format: String,
    pub jpeg_quality: u8,
    pub tile_size: Option<u32>,
    pub tile_pad: Option<u32>,
    pub batch_size: Option<u32>,
    pub device: String,
}

/// The scale a job uses when none is given: 2.
pub fn default_scale() -> (v: u32)
    ensures
        v == 2,
{
    2
}

/// The model a job uses when none is given.
pub fn default_model() -> (v: String)
    ensures
        v@ == "RealESRGAN_x4plus_anime_6B"@,
{
    String::from_str("RealESRGAN_x4plus_anime_6B")
}

/// The denoise level a job uses when none is given.
pub fn default_denoise() -> (v: String)
    ensures
        v@ == "medium"@,
{
    String::from_str("medium")
}

/// The output format a job uses when none is given.
pub fn default_output_format() -> (v: String)
    ensures
        v@ == "jpg"@,
{
    String::from_str("jpg")
}

/// The JPEG quality a job uses when none is given: 95.
pub fn default_jpeg_quality() -> (v: u8)
    ensures
        v == 95,
{
    95
}

/// The device a job uses when none is given.
pub fn default_device() -> (v: String)
    ensures
        v@ == "auto"@,
{
    String::from_str("auto")
}

/// Whether the output format is the default one (then it is left out of the
/// payload).
pub fn is_default_output_format(value: &String) -> (b: bool)
    ensures
        b == (value@ == "jpg"@),
{
    let d = default_output_format();
    *value == d
}

/// Whether the JPEG quality is the default one (then it is left out of the
/// payload).
pub fn is_default_jpeg_quality(value: &u8) -> (b: bool)
    ensures
        b == (*value == 95),
{
    *value == default_jpeg_quality()
}

/// Whether the device is the default one (then it is left out of the payload).
pub fn is_default_device(value: &String) -> (b: bool)
    ensures
        b == (value@ == "auto"@),
{
    let d = default_device();
    *value == d
}

/// The parameters hold every default: scale 2, the anime model, medium
/// denoise, JPEG at quality 95, automatic device, and no tiling or batching.
pub open spec fn is_default_params(p: JobParamsPayload) -> bool {
    &&& p.scale == 2
    &&& p.model@ == "RealESRGAN_x4plus_anime_6B"@
    &&& p.denoise@ == "medium"@
    &&& p.output_format@ == "jpg"@
    &&& p.jpeg_quality == 95
    &&& p.tile_size is None
    &&& p.tile_pad is None
    &&& p.batch_size is None
    &&& p.device@ == "auto"@
}

impl Default for JobParamsPayload {
    /// The default parameters (see [`is_default_params`]).
    fn default() -> (p: Self)
        ensures
            is_default_params(p),
    {
        JobParamsPayload {
            scale: default_scale(),
            model: default_model(),
            denoise: default_denoise(),
            output_format: default_output_format(),
            jpeg_quality: default_jpeg_quality(),
            tile_size: None,
            tile_pad: None,
            batch_size: None,
            device: default_device(),
        }
    }
}

/// What a job is asked to do.
#[derive(Debug)]
pub struct JobPayload {
    pub title: String,
    pub volume: String,
    pub input: JobInputPayload,
    pub params: JobParamsPayload,
}

/// Asks a service to create a job.
#[derive(Debug)]
pub struct CreateJobOptions {
    pub service_url: String,
    pub bearer_token: Option<String>,
    pub payload: JobPayload,
}

/// The service's answer to a new job.
#[derive(Debug)]
pub struct JobSubmission {
    pub job_id: String,
}

/// Asks for the state of a job.
#[derive(Debug)]
pub struct JobStatusRequest {
    pub service_url: String,
    pub job_id: String,
    pub bearer_token: Option<String>,
}

/// The title and volume a job was created with.
#[derive(Debug)]
pub struct JobMetadataSnapshot {
    pub title: Option<String>,
    pub volume: Option<String>,
}

/// The state of a job as the service reports it.
#[derive(Debug)]
pub struct JobStatusSnapshot {
    pub job_id: String,
    pub status: String,
    pub processed: u32,
    pub total: u32,
    pub artifact_path: Option<String>,
    pub message: Option<String>,
    pub retries: u32,
    pub last_error: Option<String>,
    pub artifact_hash: Option<String>,
    pub params: Option<JobParamsPayload>,
    pub metadata: Option<JobMetadataSnapshot>,
}

/// Asks to follow a job until it ends.
#[derive(Debug)]
pub struct JobWatchRequest {
    pub service_url: String,
    pub job_id: String,
    pub bearer_token: Option<String>,
    pub poll_interval_ms: Option<u64>,
}

/// Asks to resume or cancel a job.
#[derive(Debug)]
pub struct JobControlRequest {
    pub service_url: String,
    pub job_id: String,
    pub bearer_token: Option<String>,
    pub input_path: Option<String>,
    pub input_type: Option<String>,
}

/// How an event about a job reached the application.
#[derive(Debug, Clone, Copy, PartialEq, Eq, Structural)]
pub enum JobEventTransport {
    Websocket,
    Polling,
    System,
}

/// An event about a job, as forwarded to the interface.
#[derive(Debug)]
pub struct JobEventEnvelope {
    pub job_id: String,
    pub status: String,
    pub processed: u32,
    pub total: u32,
    pub artifact_path: Option<String>,
    pub message: Option<String>,
    pub transport: JobEventTransport,
    pub error: Option<String>,
    pub retries: u32,
    pub last_error: Option<String>,
    pub artifact_hash: Option<String>,
    pub params: Option<JobParamsPayload>,
    pub metadata: Option<JobMetadataSnapshot>,
}

impl JobEventEnvelope {
    /// The event for a status snapshot: its fields as they are, the transport
    /// it came by, and no error.
    pub fn from_snapshot(snapshot: JobStatusSnapshot, transport: JobEventTransport) -> (e: Self)
        ensures
            e.job_id == snapshot.job_id,
            e.status == snapshot.status,
            e.processed == snapshot.processed,
            e.total == snapshot.total,
            e.artifact_path == snapshot.artifact_path,
            e.message == snapshot.message,
            e.transport == transport,
            e.error is None,
            e.retries == snapshot.retries,
            e.last_error == snapshot.last_error,
            e.artifact_hash == snapshot.artifact_hash,
            e.params == snapshot.params,
            e.metadata == snapshot.metadata,
    {
        JobEventEnvelope {
            job_id: snapshot.job_id,
            status: snapshot.status,
            processed: snapshot.processed,
            total: snapshot.total,
            artifact_path: snapshot.artifact_path,
            message: snapshot.message,
            transport,
            error: None,
            retries: snapshot.retries,
            last_error: snapshot.last_error,
            artifact_hash: snapshot.artifact_hash,
            params: snapshot.params,
            metadata: snapshot.metadata,
        }
    }

    /// The event that reports a failure of the watcher itself: status `ERROR`,
    /// the message both as message and as error, nothing else.
    pub fn system_error(job_id: String, message: String) -> (e: Self)
        ensures
            e.job_id == job_id,
            e.status@ == "ERROR"@,
            e.processed == 0,
            e.total == 0,
            e.artifact_path is None,
            opt_text(e.message) == Some(message@),
            e.transport == JobEventTransport::System,
            opt_text(e.error) == Some(message@),
            e.retries == 0,
            e.last_error is None,
            e.artifact_hash is None,
            e.params is None,
            e.metadata is None,
    {
        let copy = message.clone();
        JobEventEnvelope {
            job_id,
            status: String::from_str("ERROR"),
            processed: 0,
            total: 0,
            artifact_path: None,
            message: Some(copy),
            transport: JobEventTransport::System,
            error: Some(message),
            retries: 0,
            last_error: None,
            artifact_hash: None,
            params: None,
            metadata: None,
        }
    }
}

/// A job status after which nothing more happens: `SUCCESS` or `FAILED`.
pub open spec fn terminal(status: Seq<char>) -> bool {
    status == "SUCCESS"@ || status == "FAILED"@
}

/// See [`terminal`].
pub fn is_terminal_status(status: &str) -> (b: bool)
    ensures
        b == terminal(status@),
{
    let s = String::from_str(status);
    let success = String::from_str("SUCCESS");
    let failed = String::from_str("FAILED");
    s == success || s == failed
}

/// The polling period in milliseconds: the requested one, 1000 when none, and
/// never below 250.
pub fn poll_interval_ms(requested: Option<u64>) -> (ms: u64)
    ensures
        ms == (match requested {
            Some(v) => if v < 250 {
                250
            } else {
                v
            },
            None => 1000,
        }),
{
    let v = match requested {
        Some(v) => v,
        None => 1000,
    };
    if v < 250 {
        250
    } else {
        v
    }
}

// ---------------------------------------------------------------------------
// Watching a job
// ---------------------------------------------------------------------------

/// A message received on a job's WebSocket, text already parsed into a
/// snapshot or into the parser's error message.
#[derive(Debug)]
pub enum WsMessage {
    Text(Result<JobStatusSnapshot, String>),
    Ping(Vec<u8>),
    Close,
    Binary,
    Pong,
    Frame,
    Error(String),
}

/// What the watcher does next.
#[derive(Debug)]
pub enum WatchAction {
    /// Forward the event and keep listening.
    Emit(JobEventEnvelope),
    /// Forward the event; the job has ended.
    EmitAndFinish(JobEventEnvelope),
    /// Answer a ping with a pong carrying the same payload.
    Reply(Vec<u8>),
    /// Nothing to do; keep listening.
    Ignore,
    /// Forward the event and stop listening.
    EmitAndStop(JobEventEnvelope),
    /// Stop listening.
    Stop,
}

/// The watcher's memory: whether the last snapshot forwarded was terminal.
pub struct WatchState {
    pub last_terminal: Option<bool>,
}

/// `e` is the event of the snapshot `snap` that came by `transport`: every
/// field of the snapshot as it is, and no error.
pub open spec fn forwards_snapshot(e: JobEventEnvelope, snap: JobStatusSnapshot, transport: JobEventTransport) -> bool {
    &&& e.job_id == snap.job_id
    &&& e.status == snap.status
    &&& e.processed == snap.processed
    &&& e.total == snap.total
    &&& e.artifact_path == snap.artifact_path
    &&& e.message == snap.message
    &&& e.transport == transport
    &&& e.error is None
    &&& e.retries == snap.retries
    &&& e.last_error == snap.last_error
    &&& e.artifact_hash == snap.artifact_hash
    &&& e.params == snap.params
    &&& e.metadata == snap.metadata
}

/// `e` is the watcher's own error event for `job_id`: status `ERROR`, the
/// text `msg` as message and as error, and nothing else.
pub open spec fn is_system_event(e: JobEventEnvelope, job_id: Seq<char>, msg: Seq<char>) -> bool {
    &&& e.job_id@ == job_id
    &&& e.status@ == "ERROR"@
    &&& e.processed == 0
    &&& e.total == 0
    &&& e.artifact_path is None
    &&& opt_text(e.message) == Some(msg)
    &&& e.transport == JobEventTransport::System
    &&& opt_text(e.error) == Some(msg)
    &&& e.retries == 0
    &&& e.last_error is None
    &&& e.artifact_hash is None
    &&& e.params is None
    &&& e.metadata is None
}

/// The message of an unreadable WebSocket text.
pub open spec fn unreadable_ws_text(err: Seq<char>) -> Seq<char> {
    "无法解析 WebSocket 消息: "@ + err
}

/// The message of a broken WebSocket connection.
pub open spec fn broken_ws_text(err: Seq<char>) -> Seq<char> {
    "WebSocket 连接中断: "@ + err
}

/// The message when no WebSocket could be opened.
pub open spec fn ws_unavailable_text(err: Seq<char>) -> Seq<char> {
    "WebSocket 不可用，改用轮询："@ + err
}

/// One step of the WebSocket watch (`watch_job_events`): a snapshot is
/// forwarded, and ends the watch when its status is terminal; an unreadable
/// text and a broken connection are reported as system errors, the latter
/// ending the listening; a ping is answered; a close ends the listening; other
/// frames are ignored.
pub fn on_ws_message(state: &mut WatchState, job_id: &str, msg: WsMessage) -> (a: WatchAction)
    ensures
        match msg {
            WsMessage::Text(Ok(snap)) => {
                &&& final(state).last_terminal == Some(terminal(snap.status@))
                &&& match a {
                    WatchAction::Emit(e) => !terminal(snap.status@) && forwards_snapshot(e, snap, JobEventTransport::Websocket),
                    WatchAction::EmitAndFinish(e) => terminal(snap.status@) && forwards_snapshot(e, snap, JobEventTransport::Websocket),
                    _ => false,
                }
            },
            WsMessage::Text(Err(err)) => final(state).last_terminal == old(state).last_terminal && (a matches WatchAction::Emit(e)
                && is_system_event(e, job_id@, unreadable_ws_text(err@))),
            WsMessage::Ping(p) => final(state).last_terminal == old(state).last_terminal && (a matches WatchAction::Reply(q) && q@ == p@),
            WsMessage::Close => final(state).last_terminal == old(state).last_terminal && a is Stop,
            WsMessage::Error(err) => final(state).last_terminal == old(state).last_terminal && (a matches WatchAction::EmitAndStop(e)
                && is_system_event(e, job_id@, broken_ws_text(err@))),
            _ => final(state).last_terminal == old(state).last_terminal && a is Ignore,
        },
{
    match msg {
        WsMessage::Text(Ok(snap)) => {
            let done = is_terminal_status(snap.status.as_str());
            state.last_terminal = Some(done);
            let e = JobEventEnvelope::from_snapshot(snap, JobEventTransport::Websocket);
            if done {
                WatchAction::EmitAndFinish(e)
            } else {
                WatchAction::Emit(e)
            }
        },
        WsMessage::Text(Err(err)) => {
            let text = concat2("无法解析 WebSocket 消息: ", err.as_str());
            WatchAction::Emit(JobEventEnvelope::system_error(String::from_str(job_id), text))
        },
        WsMessage::Ping(p) => WatchAction::Reply(p),
        WsMessage::Close => WatchAction::Stop,
        WsMessage::Error(err) => {
            let text = concat2("WebSocket 连接中断: ", err.as_str());
            WatchAction::EmitAndStop(JobEventEnvelope::system_error(String::from_str(job_id), text))
        },
        _ => WatchAction::Ignore,
    }
}

/// After the WebSocket stops: the watch is over only when the last snapshot
/// seen was terminal; otherwise it goes on by polling.
pub fn ws_watch_finished(state: &WatchState) -> (b: bool)
    ensures
        b == (state.last_terminal == Some(true)),
{
    match state.last_terminal {
        Some(t) => t,
        None => false,
    }
}

/// The notice sent when no WebSocket could be opened and polling takes over.
pub fn ws_unavailable_notice(job_id: &str, err: &str) -> (e: JobEventEnvelope)
    ensures
        is_system_event(e, job_id@, ws_unavailable_text(err@)),
{
    let text = concat2("WebSocket 不可用，改用轮询：", err);
    JobEventEnvelope::system_error(String::from_str(job_id), text)
}

/// One polled snapshot (`poll_job_events`): its event, and whether polling
/// stops because the job has ended.
pub fn on_poll_snapshot(snapshot: JobStatusSnapshot) -> (r: (JobEventEnvelope, bool))
    ensures
        forwards_snapshot(r.0, snapshot, JobEventTransport::Polling),
        r.1 == terminal(snapshot.status@),
{
    let done = is_terminal_status(snapshot.status.as_str());
    (JobEventEnvelope::from_snapshot(snapshot, JobEventTransport::Polling), done)
}

} // verus!
