//! Identifier, fingerprint and decimal primitives.

use restreamer::decimal::{parse_u64, u64_to_dec};
use restreamer::ids::{InputId, OutputId};
use restreamer::types::{Input, PullInput, PushInput, Status};

#[test]
fn dec_renders_exact_digits() {
    assert_eq!(u64_to_dec(0), "0");
    assert_eq!(u64_to_dec(7), "7");
    assert_eq!(u64_to_dec(42), "42");
    assert_eq!(u64_to_dec(1935), "1935");
    assert_eq!(u64_to_dec(u64::MAX), "18446744073709551615");
}

#[test]
fn parse_accepts_digits_and_rejects_the_rest() {
    assert_eq!(parse_u64("0"), Some(0));
    assert_eq!(parse_u64("007"), Some(7));
    assert_eq!(parse_u64("1935"), Some(1935));
    assert_eq!(parse_u64("18446744073709551615"), Some(u64::MAX));
    assert_eq!(parse_u64("18446744073709551616"), None);
    assert_eq!(parse_u64(""), None);
    assert_eq!(parse_u64("12a3"), None);
    assert_eq!(parse_u64("-5"), None);
}

#[test]
fn parse_inverts_rendering() {
    for n in [0u64, 1, 9, 10, 99, 1234567890123, u64::MAX] {
        assert_eq!(parse_u64(u64_to_dec(n).as_str()), Some(n));
    }
}

#[test]
fn fresh_ids_differ_and_bits_round_trip() {
    let a = InputId::new();
    let b = InputId::new();
    assert_ne!(a.as_u128(), b.as_u128());
    assert_eq!(InputId::from_u128(a.as_u128()), a);
    let o = OutputId::from_u128(77);
    assert_eq!(o.as_u128(), 77);
}

#[test]
fn fingerprint_is_deterministic_and_distinguishes() {
    let a = Input::Pull(PullInput { src: "rtmp://a/x".to_string(), status: Status::Offline });
    let a2 = Input::Pull(PullInput { src: "rtmp://a/x".to_string(), status: Status::Online });
    let b = Input::Pull(PullInput { src: "rtmp://b/y".to_string(), status: Status::Offline });
    assert_eq!(a.hash(), a2.hash());
    assert_ne!(a.hash(), b.hash());
    // The fingerprint matches a direct digest of the same bytes.
    assert_eq!(a.hash(), xxhash_rust::xxh3::xxh3_64(b"rtmp://a/x"));
}

#[test]
fn srs_urls_follow_the_scheme() {
    let push = Input::Push(PushInput { name: "studio".to_string(), status: Status::Offline });
    assert_eq!(push.srs_url(), "rtmp://127.0.0.1:1935/studio/in");
    let pull = Input::Pull(PullInput { src: "rtmp://a/x".to_string(), status: Status::Offline });
    let expected = format!("rtmp://127.0.0.1:1935/pull_{}/in", pull.hash());
    assert_eq!(pull.srs_url(), expected);
    assert_eq!(pull.srs_url_hash(), xxhash_rust::xxh3::xxh3_64(expected.as_bytes()));
    assert_eq!(pull.upstream_url(), Some(&"rtmp://a/x".to_string()));
    assert_eq!(pull.upstream_url_hash(), Some(pull.hash()));
    assert_eq!(push.upstream_url(), None);
}

#[test]
fn app_matching_dispatches_on_kind() {
    let push = Input::Push(PushInput { name: "studio".to_string(), status: Status::Offline });
    assert!(push.uses_srs_app("studio"));
    assert!(!push.uses_srs_app("other"));
    let pull = Input::Pull(PullInput { src: "rtmp://a/x".to_string(), status: Status::Offline });
    let app = format!("pull_{}", pull.hash());
    assert!(pull.uses_srs_app(app.as_str()));
    assert!(!pull.uses_srs_app("pull_"));
    assert!(!pull.uses_srs_app("pull_notdigits"));
    assert!(!pull.uses_srs_app("push_123"));
    assert!(!pull.uses_srs_app("studio"));
    assert!(!push.uses_srs_app(app.as_str()));
}

#[test]
fn input_identity_ignores_status() {
    let a = Input::Pull(PullInput { src: "rtmp://a/x".to_string(), status: Status::Offline });
    let b = Input::Pull(PullInput { src: "rtmp://a/x".to_string(), status: Status::Online });
    let c = Input::Push(PushInput { name: "rtmp://a/x".to_string(), status: Status::Offline });
    assert!(a.is(&b));
    assert!(!a.is(&c));
    assert!(a.is_pull());
    assert!(!c.is_pull());
}

#[test]
fn status_accessors_work() {
    let mut i = Input::Push(PushInput { name: "s".to_string(), status: Status::Offline });
    assert_eq!(i.status(), Status::Offline);
    i.set_status(Status::Online);
    assert_eq!(i.status(), Status::Online);
    i.set_status(Status::Initializing);
    assert_eq!(i.status(), Status::Initializing);
}
