use sessionhub::supervisor::{
    backoff_delay, BackendState, Policy, Supervisor, SupervisorAction, SupervisorEvent,
};

fn policy() -> Policy {
    Policy {
        failure_threshold: 3,
        max_restarts: 2,
        healthy_reset_ms: 1000,
        base_backoff_ms: 100,
        max_backoff_ms: 1000,
    }
}

fn healthy(p: Policy, now: u64) -> Supervisor {
    let mut s = Supervisor::new(p);
    assert_eq!(s.step(SupervisorEvent::Start), SupervisorAction::Spawn(0));
    assert_eq!(s.state, BackendState::Starting);
    assert_eq!(s.step(SupervisorEvent::ProbeOk(now)), SupervisorAction::Nothing);
    assert_eq!(s.state, BackendState::Healthy);
    s
}

#[test]
fn failed_probes_restart_once_per_episode() {
    let mut s = healthy(policy(), 0);
    assert_eq!(s.step(SupervisorEvent::ProbeFailed), SupervisorAction::Nothing);
    assert_eq!(s.state, BackendState::Unhealthy);
    assert_eq!(s.step(SupervisorEvent::ProbeFailed), SupervisorAction::Nothing);
    assert_eq!(s.state, BackendState::Unhealthy);
    assert_eq!(s.step(SupervisorEvent::ProbeFailed), SupervisorAction::KillProcess);
    assert_eq!(s.state, BackendState::Restarting);
    assert_eq!(s.step(SupervisorEvent::ProbeFailed), SupervisorAction::Nothing);
    assert_eq!(s.step(SupervisorEvent::ProcessExited), SupervisorAction::Nothing);
    assert_eq!(s.restart_count, 0);
    assert_eq!(s.step(SupervisorEvent::RestartCompleted), SupervisorAction::Spawn(100));
    assert_eq!(s.state, BackendState::Starting);
    assert_eq!(s.restart_count, 1);
}

#[test]
fn recovery_within_grace_clears_the_episode() {
    let mut s = healthy(policy(), 0);
    s.step(SupervisorEvent::ProbeFailed);
    s.step(SupervisorEvent::ProbeFailed);
    s.step(SupervisorEvent::ProbeOk(50));
    assert_eq!(s.state, BackendState::Healthy);
    assert_eq!(s.failures, 0);
    s.step(SupervisorEvent::ProbeFailed);
    s.step(SupervisorEvent::ProbeFailed);
    assert_eq!(s.state, BackendState::Unhealthy);
}

fn fail_and_restart(s: &mut Supervisor) -> SupervisorAction {
    s.step(SupervisorEvent::ProbeFailed);
    s.step(SupervisorEvent::ProbeFailed);
    assert_eq!(s.step(SupervisorEvent::ProbeFailed), SupervisorAction::KillProcess);
    s.step(SupervisorEvent::RestartCompleted)
}

#[test]
fn sustained_health_resets_restart_count() {
    let mut p = policy();
    p.max_restarts = 5;
    let mut s = healthy(p, 0);
    assert_eq!(fail_and_restart(&mut s), SupervisorAction::Spawn(100));
    s.step(SupervisorEvent::ProbeOk(10));
    assert_eq!(fail_and_restart(&mut s), SupervisorAction::Spawn(200));
    assert_eq!(s.restart_count, 2);
    s.step(SupervisorEvent::ProbeOk(20));
    s.step(SupervisorEvent::ProbeOk(500));
    assert_eq!(s.restart_count, 2);
    s.step(SupervisorEvent::ProbeOk(1021));
    assert_eq!(s.restart_count, 0);
    assert_eq!(fail_and_restart(&mut s), SupervisorAction::Spawn(100));
    assert_eq!(s.restart_count, 1);
}

#[test]
fn exhausted_budget_stops_with_fatal_error() {
    let mut s = healthy(policy(), 0);
    assert_eq!(fail_and_restart(&mut s), SupervisorAction::Spawn(100));
    s.step(SupervisorEvent::ProbeOk(1));
    assert_eq!(fail_and_restart(&mut s), SupervisorAction::Spawn(200));
    s.step(SupervisorEvent::ProbeOk(2));
    assert_eq!(fail_and_restart(&mut s), SupervisorAction::GiveUp);
    assert_eq!(s.state, BackendState::Stopped);
    assert!(s.fatal);
    assert_eq!(s.step(SupervisorEvent::ProbeOk(3)), SupervisorAction::Nothing);
    assert_eq!(s.step(SupervisorEvent::Start), SupervisorAction::Spawn(0));
    assert!(!s.fatal);
    assert_eq!(s.restart_count, 0);
}

#[test]
fn stop_from_any_live_state() {
    let mut s = healthy(policy(), 0);
    assert_eq!(s.step(SupervisorEvent::Stop), SupervisorAction::Shutdown);
    assert_eq!(s.state, BackendState::Stopped);
    assert!(!s.fatal);
    assert_eq!(s.step(SupervisorEvent::Stop), SupervisorAction::Nothing);
}

#[test]
fn backoff_doubles_up_to_the_bound() {
    assert_eq!(backoff_delay(100, 1000, 0), 100);
    assert_eq!(backoff_delay(100, 1000, 1), 200);
    assert_eq!(backoff_delay(100, 1000, 3), 800);
    assert_eq!(backoff_delay(100, 1000, 4), 1000);
    assert_eq!(backoff_delay(100, 1000, 40), 1000);
    assert_eq!(backoff_delay(5000, 1000, 0), 1000);
    assert_eq!(backoff_delay(u64::MAX, u64::MAX, 3), u64::MAX);
}
