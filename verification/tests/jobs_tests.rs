use rei_manga::endpoints::{build_remote_url, build_service_endpoint, build_websocket_endpoint, job_path, JobError};
use rei_manga::jobs::{
    default_denoise, default_device, default_jpeg_quality, default_model, default_output_format,
    default_scale, is_default_device, is_default_jpeg_quality, is_default_output_format,
    is_terminal_status, on_poll_snapshot, on_ws_message, poll_interval_ms, ws_unavailable_notice,
    ws_watch_finished, JobEventEnvelope, JobEventTransport, JobParamsPayload, JobStatusSnapshot,
    WatchAction, WatchState, WsMessage,
};

fn snapshot(status: &str) -> JobStatusSnapshot {
    JobStatusSnapshot {
        job_id: "xyz".to_string(),
        status: status.to_string(),
        processed: 3,
        total: 48,
        artifact_path: None,
        message: Some("processing".to_string()),
        retries: 0,
        last_error: None,
        artifact_hash: None,
        params: None,
        metadata: None,
    }
}

#[test]
fn job_params_payload_defaults() {
    let params = JobParamsPayload::default();
    assert_eq!(params.scale, 2);
    assert_eq!(params.model, "RealESRGAN_x4plus_anime_6B");
    assert_eq!(params.denoise, "medium");
    assert_eq!(params.output_format, "jpg");
    assert_eq!(params.jpeg_quality, 95);
    assert_eq!(params.tile_size, None);
    assert_eq!(params.tile_pad, None);
    assert_eq!(params.batch_size, None);
    assert_eq!(params.device, "auto");
}

#[test]
fn default_helpers_agree() {
    assert_eq!(default_scale(), 2);
    assert_eq!(default_model(), "RealESRGAN_x4plus_anime_6B");
    assert_eq!(default_denoise(), "medium");
    assert_eq!(default_output_format(), "jpg");
    assert_eq!(default_jpeg_quality(), 95);
    assert_eq!(default_device(), "auto");
    assert!(is_default_output_format(&"jpg".to_string()));
    assert!(!is_default_output_format(&"png".to_string()));
    assert!(is_default_jpeg_quality(&95));
    assert!(!is_default_jpeg_quality(&90));
    assert!(is_default_device(&"auto".to_string()));
    assert!(!is_default_device(&"cuda".to_string()));
}

#[test]
fn terminal_statuses() {
    assert!(is_terminal_status("SUCCESS"));
    assert!(is_terminal_status("FAILED"));
    assert!(!is_terminal_status("RUNNING"));
    assert!(!is_terminal_status("success"));
}

#[test]
fn poll_interval_has_a_floor() {
    assert_eq!(poll_interval_ms(None), 1000);
    assert_eq!(poll_interval_ms(Some(100)), 250);
    assert_eq!(poll_interval_ms(Some(5000)), 5000);
}

#[test]
fn envelope_from_snapshot_copies_fields() {
    let e = JobEventEnvelope::from_snapshot(snapshot("RUNNING"), JobEventTransport::Polling);
    assert_eq!(e.job_id, "xyz");
    assert_eq!(e.status, "RUNNING");
    assert_eq!(e.processed, 3);
    assert_eq!(e.total, 48);
    assert_eq!(e.message.as_deref(), Some("processing"));
    assert_eq!(e.transport, JobEventTransport::Polling);
    assert!(e.error.is_none());
}

#[test]
fn system_error_envelope() {
    let e = JobEventEnvelope::system_error("abc".to_string(), "boom".to_string());
    assert_eq!(e.status, "ERROR");
    assert_eq!(e.message.as_deref(), Some("boom"));
    assert_eq!(e.error.as_deref(), Some("boom"));
    assert_eq!(e.transport, JobEventTransport::System);
    assert_eq!(e.processed, 0);
}

#[test]
fn websocket_watch_steps() {
    let mut state = WatchState { last_terminal: None };
    match on_ws_message(&mut state, "xyz", WsMessage::Text(Ok(snapshot("RUNNING")))) {
        WatchAction::Emit(e) => assert_eq!(e.transport, JobEventTransport::Websocket),
        other => panic!("unexpected {:?}", other),
    }
    assert!(!ws_watch_finished(&state));
    match on_ws_message(&mut state, "xyz", WsMessage::Text(Err("bad json".to_string()))) {
        WatchAction::Emit(e) => assert_eq!(e.error.as_deref(), Some("无法解析 WebSocket 消息: bad json")),
        other => panic!("unexpected {:?}", other),
    }
    match on_ws_message(&mut state, "xyz", WsMessage::Ping(vec![1, 2])) {
        WatchAction::Reply(p) => assert_eq!(p, vec![1, 2]),
        other => panic!("unexpected {:?}", other),
    }
    assert!(matches!(on_ws_message(&mut state, "xyz", WsMessage::Binary), WatchAction::Ignore));
    assert!(matches!(on_ws_message(&mut state, "xyz", WsMessage::Close), WatchAction::Stop));
    match on_ws_message(&mut state, "xyz", WsMessage::Error("reset".to_string())) {
        WatchAction::EmitAndStop(e) => assert_eq!(e.error.as_deref(), Some("WebSocket 连接中断: reset")),
        other => panic!("unexpected {:?}", other),
    }
    match on_ws_message(&mut state, "xyz", WsMessage::Text(Ok(snapshot("SUCCESS")))) {
        WatchAction::EmitAndFinish(e) => assert_eq!(e.status, "SUCCESS"),
        other => panic!("unexpected {:?}", other),
    }
    assert!(ws_watch_finished(&state));
}

#[test]
fn polling_stops_on_terminal_status() {
    let (e, done) = on_poll_snapshot(snapshot("RUNNING"));
    assert_eq!(e.transport, JobEventTransport::Polling);
    assert!(!done);
    let (_, done) = on_poll_snapshot(snapshot("FAILED"));
    assert!(done);
    let notice = ws_unavailable_notice("xyz", "refused");
    assert_eq!(notice.error.as_deref(), Some("WebSocket 不可用，改用轮询：refused"));
}

#[test]
fn remote_url_joins_with_one_slash() {
    assert_eq!(build_remote_url("http://host/", "/incoming/a.zip"), "http://host/incoming/a.zip");
    assert_eq!(build_remote_url("http://host", "incoming"), "http://host/incoming");
    assert_eq!(build_remote_url("", "/x"), "/x");
    assert_eq!(build_remote_url("http://host///", ""), "http://host");
    assert_eq!(build_remote_url("", ""), "");
}

#[test]
fn service_endpoints() {
    assert_eq!(build_service_endpoint("http://host/api", "jobs").unwrap(), "http://host/api/jobs");
    assert_eq!(build_service_endpoint("  http://host/api/  ", "jobs/xyz").unwrap(), "http://host/api/jobs/xyz");
    assert!(matches!(build_service_endpoint("   ", "jobs"), Err(JobError::InvalidServiceUrl)));
    assert!(matches!(build_service_endpoint("not a url", "jobs"), Err(JobError::Url(_))));
    assert_eq!(build_websocket_endpoint("https://host/api", "abc").unwrap(), "wss://host/api/ws/jobs/abc");
    assert_eq!(build_websocket_endpoint("http://host", "abc").unwrap(), "ws://host/ws/jobs/abc");
    assert_eq!(job_path("xyz", Some("resume")), "jobs/xyz/resume");
    assert_eq!(job_path("xyz", None), "jobs/xyz");
}

#[test]
fn job_error_messages() {
    assert_eq!(JobError::InvalidServiceUrl.message(), "service url is empty");
    assert_eq!(JobError::UnexpectedStatus("404 Not Found".to_string()).message(), "unexpected response status: 404 Not Found");
    assert_eq!(JobError::InvalidResponse("x".to_string()).message(), "invalid response: x");
    let e = build_service_endpoint("nope", "jobs").unwrap_err();
    assert!(e.message().starts_with("invalid service url: "));
}
