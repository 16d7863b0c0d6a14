//! The state store's mutators and their tri-valued results.

use restreamer::ids::{InputId, OutputId};
use restreamer::state::State;
use restreamer::types::Status;

fn empty() -> State {
    State::default()
}

#[test]
fn add_pull_duplicate_and_replace() {
    let mut s = empty();
    assert_eq!(s.add_pull_input("rtmp://a/x".to_string(), None), Some(true));
    assert_eq!(s.restreams.len(), 1);
    let first = s.restreams[0].id;
    assert!(s.restreams[0].enabled);
    assert!(s.restreams[0].outputs.is_empty());
    // The same URL again is a duplicate.
    assert_eq!(s.add_pull_input("rtmp://a/x".to_string(), None), Some(false));
    assert_eq!(s.restreams.len(), 1);
    // Replacing the owner with the same URL is fine and adds nothing.
    assert_eq!(s.add_pull_input("rtmp://a/x".to_string(), Some(first)), Some(true));
    assert_eq!(s.restreams.len(), 1);
    assert_eq!(s.restreams[0].id, first);
}

#[test]
fn replace_swaps_input_and_resets_outputs() {
    let mut s = empty();
    assert_eq!(s.add_push_input("studio".to_string(), None), Some(true));
    let id = s.restreams[0].id;
    assert_eq!(s.add_new_output(id, "rtmp://cdn/live".to_string(), None), Some(true));
    let out_id = s.restreams[0].outputs[0].id;
    // Make the input live, then replace it with a different identity.
    assert_eq!(s.add_push_input("newname".to_string(), Some(id)), Some(true));
    assert_eq!(s.restreams.len(), 1);
    assert_eq!(s.restreams[0].id, id);
    assert_eq!(s.restreams[0].outputs.len(), 1);
    assert_eq!(s.restreams[0].outputs[0].id, out_id);
    assert_eq!(s.restreams[0].outputs[0].status, Status::Offline);
    assert_eq!(s.restreams[0].srs_publisher_id, None);
    match &s.restreams[0].input {
        restreamer::types::Input::Push(p) => assert_eq!(p.name, "newname"),
        _ => panic!("expected a push input"),
    }
}

#[test]
fn replace_of_unknown_id_is_none() {
    let mut s = empty();
    let ghost_id = InputId::from_u128(12345);
    assert_eq!(s.add_pull_input("rtmp://a/x".to_string(), Some(ghost_id)), None);
    assert_eq!(s.restreams.len(), 0);
}

#[test]
fn remove_input_reports_existence() {
    let mut s = empty();
    assert_eq!(s.add_pull_input("rtmp://a/x".to_string(), None), Some(true));
    let id = s.restreams[0].id;
    assert!(s.remove_input(id));
    assert_eq!(s.restreams.len(), 0);
    assert!(!s.remove_input(id));
}

#[test]
fn enable_disable_input_idempotence() {
    let mut s = empty();
    assert_eq!(s.add_pull_input("rtmp://a/x".to_string(), None), Some(true));
    let id = s.restreams[0].id;
    // A fresh restream is enabled.
    assert_eq!(s.enable_input(id), Some(false));
    assert_eq!(s.disable_input(id), Some(true));
    assert_eq!(s.disable_input(id), Some(false));
    assert_eq!(s.enable_input(id), Some(true));
    assert_eq!(s.enable_input(id), Some(false));
    assert_eq!(s.enable_input(InputId::from_u128(999)), None);
    assert_eq!(s.disable_input(InputId::from_u128(999)), None);
}

#[test]
fn output_lifecycle_and_duplicates() {
    let mut s = empty();
    assert_eq!(s.add_push_input("studio".to_string(), None), Some(true));
    let id = s.restreams[0].id;
    assert_eq!(
        s.add_new_output(id, "rtmp://cdn/live".to_string(), Some("main".to_string())),
        Some(true)
    );
    // A fresh output is disabled and offline.
    assert!(!s.restreams[0].outputs[0].enabled);
    assert_eq!(s.restreams[0].outputs[0].status, Status::Offline);
    assert_eq!(s.restreams[0].outputs[0].label, Some("main".to_string()));
    // The same destination again is a duplicate.
    assert_eq!(s.add_new_output(id, "rtmp://cdn/live".to_string(), None), Some(false));
    assert_eq!(s.restreams[0].outputs.len(), 1);
    let out = s.restreams[0].outputs[0].id;
    assert_eq!(s.enable_output(id, out), Some(true));
    assert_eq!(s.enable_output(id, out), Some(false));
    assert_eq!(s.disable_output(id, out), Some(true));
    assert_eq!(s.disable_output(id, out), Some(false));
    assert_eq!(s.enable_output(id, OutputId::from_u128(1)), None);
    assert_eq!(s.enable_output(InputId::from_u128(1), out), None);
    assert_eq!(s.remove_output(id, out), Some(true));
    assert_eq!(s.remove_output(id, out), Some(false));
    assert_eq!(s.remove_output(InputId::from_u128(1), out), None);
}

#[test]
fn output_fan_out_enable_all() {
    let mut s = empty();
    assert_eq!(s.add_push_input("studio".to_string(), None), Some(true));
    let id = s.restreams[0].id;
    assert_eq!(s.add_new_output(id, "rtmp://cdn1/live".to_string(), None), Some(true));
    assert_eq!(s.add_new_output(id, "rtmp://cdn2/live".to_string(), None), Some(true));
    assert!(!s.restreams[0].outputs[0].enabled);
    assert!(!s.restreams[0].outputs[1].enabled);
    assert_eq!(s.enable_all_outputs(id), Some(true));
    assert!(s.restreams[0].outputs[0].enabled);
    assert!(s.restreams[0].outputs[1].enabled);
    assert_eq!(s.enable_all_outputs(id), Some(false));
    assert_eq!(s.disable_all_outputs(id), Some(true));
    assert_eq!(s.disable_all_outputs(id), Some(false));
    assert_eq!(s.enable_all_outputs(InputId::from_u128(5)), None);
}

#[test]
fn push_and_pull_identities_are_separate() {
    let mut s = empty();
    assert_eq!(s.add_pull_input("x".to_string(), None), Some(true));
    // A push input named like the pull URL is a different identity.
    assert_eq!(s.add_push_input("x".to_string(), None), Some(true));
    assert_eq!(s.restreams.len(), 2);
    assert_eq!(s.add_push_input("x".to_string(), None), Some(false));
}

#[test]
fn snapshot_is_a_deep_copy() {
    let mut s = empty();
    assert_eq!(s.add_push_input("studio".to_string(), None), Some(true));
    let snap = s.get_snapshot();
    let id = s.restreams[0].id;
    assert_eq!(s.disable_input(id), Some(true));
    assert!(snap.restreams[0].enabled);
    assert!(!s.restreams[0].enabled);
}

#[test]
fn well_formedness_checker_accepts_mutated_states() {
    let mut s = empty();
    assert!(s.is_well_formed());
    assert_eq!(s.add_pull_input("rtmp://a/x".to_string(), None), Some(true));
    assert_eq!(s.add_push_input("studio".to_string(), None), Some(true));
    let id = s.restreams[0].id;
    assert_eq!(s.add_new_output(id, "rtmp://cdn/live".to_string(), None), Some(true));
    assert!(s.is_well_formed());
}
