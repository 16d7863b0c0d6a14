//! Persistence: the round trip resets liveness and keeps everything else.

use restreamer::callback::{on_publish, CallerIp};
use restreamer::persist::PersistedInput;
use restreamer::state::State;
use restreamer::types::{Input, Status};

#[test]
fn persist_reload_keeps_topology_and_resets_liveness() {
    let mut s = State::default();
    s.password_hash = Some("$argon2i$v=19$m=4096,t=3,p=1$c29tZXNhbHQ$hash".to_string());
    assert_eq!(s.add_pull_input("rtmp://up1/x".to_string(), None), Some(true));
    assert_eq!(s.add_push_input("studio".to_string(), None), Some(true));
    assert_eq!(s.add_pull_input("rtmp://up2/y".to_string(), None), Some(true));
    let a = s.restreams[0].id;
    let b = s.restreams[1].id;
    assert_eq!(s.add_new_output(a, "rtmp://cdn1/live".to_string(), Some("main".to_string())), Some(true));
    assert_eq!(s.add_new_output(b, "rtmp://cdn2/live".to_string(), None), Some(true));
    assert_eq!(s.enable_all_outputs(b), Some(true));
    assert_eq!(s.disable_input(s.restreams[2].id), Some(true));
    // Make the push input live.
    let stream = Some("in".to_string());
    assert_eq!(on_publish(&mut s, "studio", &stream, 42, CallerIp::V4(127, 0, 0, 1)), Ok(()));
    assert_eq!(s.restreams[1].input.status(), Status::Online);

    let reloaded = State::from_persisted(s.to_persisted());

    assert_eq!(reloaded.password_hash, s.password_hash);
    assert_eq!(reloaded.restreams.len(), 3);
    for (orig, back) in s.restreams.iter().zip(reloaded.restreams.iter()) {
        assert_eq!(back.id, orig.id);
        assert_eq!(back.enabled, orig.enabled);
        // Identities survive; statuses do not.
        assert!(back.input.is(&orig.input));
        assert_eq!(back.input.status(), Status::Offline);
        assert_eq!(back.srs_publisher_id, None);
        assert_eq!(back.outputs.len(), orig.outputs.len());
        for (oo, ob) in orig.outputs.iter().zip(back.outputs.iter()) {
            assert_eq!(ob.id, oo.id);
            assert_eq!(ob.dst, oo.dst);
            assert_eq!(ob.label, oo.label);
            assert_eq!(ob.enabled, oo.enabled);
            assert_eq!(ob.status, Status::Offline);
        }
    }
    assert!(reloaded.is_well_formed());
}

#[test]
fn persisted_form_has_no_liveness_fields() {
    let mut s = State::default();
    assert_eq!(s.add_push_input("studio".to_string(), None), Some(true));
    let stream = Some("in".to_string());
    assert_eq!(on_publish(&mut s, "studio", &stream, 7, CallerIp::V4(127, 0, 0, 1)), Ok(()));
    let p = s.to_persisted();
    assert_eq!(p.restreams.len(), 1);
    assert_eq!(p.restreams[0].id, s.restreams[0].id);
    assert!(p.restreams[0].enabled);
    match &p.restreams[0].input {
        PersistedInput::Push { name } => assert_eq!(name, "studio"),
        _ => panic!("expected a push input"),
    }
}

#[test]
fn reload_of_a_corrupt_document_is_caught_by_the_checker() {
    // Two restreams with the same pull URL cannot come from the mutators,
    // but a hand-edited journal could hold them.
    let mut s = State::default();
    assert_eq!(s.add_pull_input("rtmp://a/x".to_string(), None), Some(true));
    let mut p = s.to_persisted();
    p.restreams.push(restreamer::persist::PersistedRestream {
        id: restreamer::ids::InputId::from_u128(1),
        input: PersistedInput::Pull { src: "rtmp://a/x".to_string() },
        outputs: Vec::new(),
        enabled: false,
    });
    let reloaded = State::from_persisted(p);
    assert!(!reloaded.is_well_formed());
}

#[test]
fn default_state_is_empty_and_well_formed() {
    let s = State::default();
    assert!(s.password_hash.is_none());
    assert!(s.restreams.is_empty());
    assert!(s.is_well_formed());
}
