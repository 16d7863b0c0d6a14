//! The reconciler: derived worker sets and idempotent reconciliation.

use restreamer::pool::{next_backoff_secs, PoolAction, RestreamersPool};
use restreamer::state::State;

fn two_restream_state() -> State {
    let mut s = State::default();
    assert_eq!(s.add_pull_input("rtmp://a/x".to_string(), None), Some(true));
    assert_eq!(s.add_push_input("studio".to_string(), None), Some(true));
    let a = s.restreams[0].id;
    let b = s.restreams[1].id;
    assert_eq!(s.add_new_output(a, "rtmp://cdn1/live".to_string(), None), Some(true));
    assert_eq!(s.add_new_output(b, "rtmp://cdn2/live".to_string(), None), Some(true));
    assert_eq!(s.enable_all_outputs(a), Some(true));
    assert_eq!(s.enable_all_outputs(b), Some(true));
    s
}

#[test]
fn reconcile_convergence() {
    let mut s = two_restream_state();
    let mut pool = RestreamersPool::new();
    let actions = pool.apply(&s.restreams);
    assert_eq!(pool.workers.len(), 2);
    assert_eq!(actions.len(), 2);
    assert!(actions.iter().all(|a| matches!(a, PoolAction::Start(_))));
    // The same snapshot again: nothing to do.
    let actions = pool.apply(&s.restreams);
    assert!(actions.is_empty());
    assert_eq!(pool.workers.len(), 2);
    // Disabling one restream stops its worker within one step.
    let a = s.restreams[0].id;
    assert_eq!(s.disable_input(a), Some(true));
    let actions = pool.apply(&s.restreams);
    assert_eq!(pool.workers.len(), 1);
    assert_eq!(actions.len(), 1);
    assert!(matches!(actions[0], PoolAction::Stop(_)));
    // Re-enabling brings it back.
    assert_eq!(s.enable_input(a), Some(true));
    let actions = pool.apply(&s.restreams);
    assert_eq!(pool.workers.len(), 2);
    assert_eq!(actions.len(), 1);
    assert!(matches!(actions[0], PoolAction::Start(_)));
}

#[test]
fn worker_parameters_follow_the_input() {
    let s = two_restream_state();
    let mut pool = RestreamersPool::new();
    let _ = pool.apply(&s.restreams);
    let w0 = &pool.workers[0];
    assert_eq!(w0.key, s.restreams[0].input.hash());
    assert_eq!(w0.from_url, s.restreams[0].input.srs_url());
    assert_eq!(w0.to_urls, vec!["rtmp://cdn1/live".to_string()]);
    let w1 = &pool.workers[1];
    assert_eq!(w1.key, s.restreams[1].input.hash());
    assert_eq!(w1.from_url, "rtmp://127.0.0.1:1935/studio/in");
    assert_eq!(w1.to_urls, vec!["rtmp://cdn2/live".to_string()]);
}

#[test]
fn changed_outputs_mean_restart() {
    let mut s = two_restream_state();
    let mut pool = RestreamersPool::new();
    let _ = pool.apply(&s.restreams);
    let b = s.restreams[1].id;
    assert_eq!(s.add_new_output(b, "rtmp://cdn3/live".to_string(), None), Some(true));
    assert_eq!(s.enable_all_outputs(b), Some(true));
    let actions = pool.apply(&s.restreams);
    assert_eq!(actions.len(), 1);
    match &actions[0] {
        PoolAction::Restart(w) => {
            assert_eq!(w.to_urls, vec!["rtmp://cdn2/live".to_string(), "rtmp://cdn3/live".to_string()]);
        }
        other => panic!("expected a restart, got {:?}", other),
    }
    assert_eq!(pool.workers.len(), 2);
}

#[test]
fn restreams_without_enabled_outputs_get_no_worker() {
    let mut s = State::default();
    assert_eq!(s.add_push_input("studio".to_string(), None), Some(true));
    let id = s.restreams[0].id;
    let mut pool = RestreamersPool::new();
    assert!(pool.apply(&s.restreams).is_empty());
    assert_eq!(pool.workers.len(), 0);
    assert_eq!(s.add_new_output(id, "rtmp://cdn/live".to_string(), None), Some(true));
    // The output exists but is disabled: still no worker.
    assert!(pool.apply(&s.restreams).is_empty());
    let out = s.restreams[0].outputs[0].id;
    assert_eq!(s.enable_output(id, out), Some(true));
    assert_eq!(pool.apply(&s.restreams).len(), 1);
    assert_eq!(pool.workers.len(), 1);
}

#[test]
fn backoff_doubles_and_caps() {
    assert_eq!(next_backoff_secs(1), 2);
    assert_eq!(next_backoff_secs(2), 4);
    assert_eq!(next_backoff_secs(8), 16);
    assert_eq!(next_backoff_secs(16), 30);
    assert_eq!(next_backoff_secs(30), 30);
    let mut d = 1u64;
    for _ in 0..10 {
        d = next_backoff_secs(d);
        assert!(d <= 30);
    }
    assert_eq!(d, 30);
}
