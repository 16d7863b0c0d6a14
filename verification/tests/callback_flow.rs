//! The broker callback plane: handshake and the pull loopback rule.

use restreamer::callback::{
    handle_callback, on_connect, on_publish, on_unpublish, CallbackAction, CallbackError,
    CallbackRequest, CallerIp,
};
use restreamer::state::State;
use restreamer::types::Status;

#[test]
fn broker_handshake_drives_liveness() {
    let mut s = State::default();
    assert_eq!(s.add_push_input("studio".to_string(), None), Some(true));
    // on_connect finds the enabled push app.
    assert_eq!(on_connect(&s, "studio"), Ok(()));
    assert_eq!(on_connect(&s, "nosuch"), Err(CallbackError::NotFound));
    // on_publish records the publisher and sets the input online.
    let req = CallbackRequest {
        action: CallbackAction::OnPublish,
        app: "studio".to_string(),
        stream: Some("in".to_string()),
        client_id: 42,
        ip: CallerIp::V4(1, 2, 3, 4),
    };
    assert_eq!(handle_callback(&mut s, &req), Ok(()));
    assert_eq!(s.restreams[0].input.status(), Status::Online);
    assert_eq!(s.restreams[0].srs_publisher_id, Some(42));
    // on_unpublish clears both.
    let req = CallbackRequest {
        action: CallbackAction::OnUnpublish,
        app: "studio".to_string(),
        stream: None,
        client_id: 42,
        ip: CallerIp::V4(1, 2, 3, 4),
    };
    assert_eq!(handle_callback(&mut s, &req), Ok(()));
    assert_eq!(s.restreams[0].input.status(), Status::Offline);
    assert_eq!(s.restreams[0].srs_publisher_id, None);
}

#[test]
fn publish_needs_the_in_stream() {
    let mut s = State::default();
    assert_eq!(s.add_push_input("studio".to_string(), None), Some(true));
    let none: Option<String> = None;
    assert_eq!(
        on_publish(&mut s, "studio", &none, 1, CallerIp::V4(127, 0, 0, 1)),
        Err(CallbackError::NotFound)
    );
    let wrong = Some("out".to_string());
    assert_eq!(
        on_publish(&mut s, "studio", &wrong, 1, CallerIp::V4(127, 0, 0, 1)),
        Err(CallbackError::NotFound)
    );
    assert_eq!(s.restreams[0].input.status(), Status::Offline);
}

#[test]
fn pull_loopback_rule() {
    let mut s = State::default();
    assert_eq!(s.add_pull_input("rtmp://upstream/x".to_string(), None), Some(true));
    let app = format!("pull_{}", s.restreams[0].input.hash());
    let stream = Some("in".to_string());
    // A remote caller may not publish a pull input.
    assert_eq!(
        on_publish(&mut s, app.as_str(), &stream, 7, CallerIp::V4(8, 8, 8, 8)),
        Err(CallbackError::Forbidden)
    );
    assert_eq!(s.restreams[0].input.status(), Status::Offline);
    assert_eq!(s.restreams[0].srs_publisher_id, None);
    // A loopback caller may.
    assert_eq!(on_publish(&mut s, app.as_str(), &stream, 7, CallerIp::V4(127, 0, 0, 1)), Ok(()));
    assert_eq!(s.restreams[0].input.status(), Status::Online);
    assert_eq!(s.restreams[0].srs_publisher_id, Some(7));
    // The IPv6 loopback works too.
    assert_eq!(on_publish(&mut s, app.as_str(), &stream, 8, CallerIp::V6Loopback), Ok(()));
    assert_eq!(
        on_publish(&mut s, app.as_str(), &stream, 9, CallerIp::V6Other),
        Err(CallbackError::Forbidden)
    );
}

#[test]
fn disabled_restreams_are_invisible_to_connect_and_publish() {
    let mut s = State::default();
    assert_eq!(s.add_push_input("studio".to_string(), None), Some(true));
    let id = s.restreams[0].id;
    assert_eq!(s.disable_input(id), Some(true));
    assert_eq!(on_connect(&s, "studio"), Err(CallbackError::NotFound));
    let stream = Some("in".to_string());
    assert_eq!(
        on_publish(&mut s, "studio", &stream, 1, CallerIp::V4(127, 0, 0, 1)),
        Err(CallbackError::NotFound)
    );
    // on_unpublish still reaches a disabled restream.
    assert_eq!(on_unpublish(&mut s, "studio"), Ok(()));
    assert_eq!(s.restreams[0].input.status(), Status::Offline);
}

#[test]
fn disable_clears_the_publisher() {
    let mut s = State::default();
    assert_eq!(s.add_push_input("studio".to_string(), None), Some(true));
    let id = s.restreams[0].id;
    let stream = Some("in".to_string());
    assert_eq!(on_publish(&mut s, "studio", &stream, 5, CallerIp::V4(127, 0, 0, 1)), Ok(()));
    assert_eq!(s.restreams[0].srs_publisher_id, Some(5));
    assert_eq!(s.disable_input(id), Some(true));
    assert_eq!(s.restreams[0].srs_publisher_id, None);
}

#[test]
fn unpublish_of_an_unknown_app_is_not_found() {
    let mut s = State::default();
    assert_eq!(s.add_push_input("studio".to_string(), None), Some(true));
    assert_eq!(on_unpublish(&mut s, "nosuch"), Err(CallbackError::NotFound));
    let pull_app = format!("pull_{}", 12345u64);
    assert_eq!(on_unpublish(&mut s, pull_app.as_str()), Err(CallbackError::NotFound));
}

#[test]
fn connect_dispatch_leaves_state_alone() {
    let mut s = State::default();
    assert_eq!(s.add_push_input("studio".to_string(), None), Some(true));
    let req = CallbackRequest {
        action: CallbackAction::OnConnect,
        app: "studio".to_string(),
        stream: None,
        client_id: 0,
        ip: CallerIp::V4(10, 0, 0, 1),
    };
    assert_eq!(handle_callback(&mut s, &req), Ok(()));
    assert_eq!(s.restreams[0].input.status(), Status::Offline);
    assert_eq!(s.restreams[0].srs_publisher_id, None);
}
