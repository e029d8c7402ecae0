use procscope::kill::{dedupe_pids, perform_kill, perform_kill_on, resolve_signal};
use procscope::model::SignalKind;

// A PID far above any default pid_max, so a signal to it fails with an
// OS error instead of reaching a live process.
const BOGUS_PID: i32 = 1_999_999_999;

#[test]
fn dedupe_keeps_first_occurrences_in_order() {
    let r = dedupe_pids(vec![3, 1, 3, 2, 1, 3]);
    assert_eq!(r, vec![3, 1, 2]);
}

#[test]
fn dedupe_of_empty_is_empty() {
    assert_eq!(dedupe_pids(Vec::new()), Vec::<i32>::new());
}

#[test]
fn resolve_signal_maps_force_flag() {
    assert_eq!(resolve_signal(Some(true)), SignalKind::Forceful);
    assert_eq!(resolve_signal(Some(false)), SignalKind::Graceful);
    assert_eq!(resolve_signal(None), SignalKind::Graceful);
}

#[test]
fn nonpositive_and_self_pids_are_filtered_before_attempt() {
    let self_pid = 4242;
    let targets = vec![0, -4, self_pid];
    let rep = perform_kill_on(&targets, 3, SignalKind::Graceful, self_pid);
    assert_eq!(rep.matched, 3);
    assert_eq!(rep.attempted, 0);
    assert!(rep.killed.is_empty());
    assert!(rep.failed.is_empty());
}

#[test]
fn failed_delivery_is_counted_and_reported() {
    let targets = vec![0, BOGUS_PID, -1];
    let rep = perform_kill_on(&targets, 1, SignalKind::Graceful, 4242);
    assert_eq!(rep.attempted, 1);
    assert_eq!(rep.attempted, rep.killed.len() + rep.failed.len());
    assert!(rep.killed.is_empty());
    assert_eq!(rep.failed.len(), 1);
    assert_eq!(rep.failed[0].pid, BOGUS_PID);
    assert!(!rep.failed[0].error.is_empty());
}

#[test]
fn deduplicated_target_is_signaled_exactly_once() {
    let targets = dedupe_pids(vec![BOGUS_PID, BOGUS_PID, BOGUS_PID]);
    let rep = perform_kill_on(&targets, 1, SignalKind::Graceful, 4242);
    assert_eq!(rep.attempted, 1);
    let seen = rep.killed.iter().filter(|p| **p == BOGUS_PID).count()
        + rep.failed.iter().filter(|f| f.pid == BOGUS_PID).count();
    assert_eq!(seen, 1);
}

#[test]
fn engine_never_signals_its_own_process() {
    let own = nix::unistd::getpid().as_raw();
    let targets = vec![own, 0, -1];
    let rep = perform_kill(&targets, 1, SignalKind::Graceful);
    assert_eq!(rep.attempted, 0);
    assert!(rep.killed.is_empty());
    assert!(rep.failed.is_empty());
}

#[test]
fn report_counts_always_balance() {
    let targets = vec![BOGUS_PID, BOGUS_PID - 1, 0];
    let rep = perform_kill_on(&targets, 2, SignalKind::Graceful, 4242);
    assert_eq!(rep.attempted, rep.killed.len() + rep.failed.len());
    assert_eq!(rep.attempted, 2);
}
