use sessionhub::frame::{decode_request, encode_reply, encode_request};
use sessionhub::hub::{ErrorKind, Hub, Reply, Request};
use sessionhub::session::SessionState;
use sessionhub::supervisor::{BackendState, Policy, Supervisor, SupervisorAction, SupervisorEvent};

fn spawn_req() -> Request {
    Request::Spawn { rows: 24, cols: 80, program: b"cat".to_vec(), args: Vec::new(), cwd: Vec::new() }
}

fn hub() -> Hub {
    let policy = Policy {
        failure_threshold: 2,
        max_restarts: 0,
        healthy_reset_ms: 1000,
        base_backoff_ms: 10,
        max_backoff_ms: 100,
    };
    Hub::new(64, Supervisor::new(policy))
}

/// Stands in for a child that writes back whatever reaches its terminal.
fn echo(h: &mut Hub, s: u64, seen: &mut usize) {
    let all = h.pty_input(s).unwrap();
    let fresh = all[*seen..].to_vec();
    *seen = all.len();
    assert!(h.output(s, &fresh));
}

#[test]
fn echo_session_with_two_links() {
    let mut h = hub();
    let s = match h.handle(&spawn_req(), 0) {
        Reply::SpawnResult(id) => id,
        other => panic!("unexpected reply {:?}", other),
    };
    assert_eq!(h.handle(&Request::Attach { session: s, link: 1 }, 0), Reply::Done);
    assert_eq!(h.handle(&Request::Attach { session: s, link: 2 }, 0), Reply::Done);
    let mut seen: usize = 0;
    let ping = Request::Input { session: s, link: 1, seq: 0, data: b"ping\n".to_vec() };
    assert_eq!(h.handle(&ping, 0), Reply::Done);
    echo(&mut h, s, &mut seen);
    assert_eq!(h.received(s, 1), Some(b"ping\n".to_vec()));
    assert_eq!(h.received(s, 2), Some(b"ping\n".to_vec()));
    assert_eq!(h.handle(&Request::Detach { session: s, link: 1 }, 0), Reply::Done);
    let pong = Request::Input { session: s, link: 2, seq: 0, data: b"pong\n".to_vec() };
    assert_eq!(h.handle(&pong, 0), Reply::Done);
    echo(&mut h, s, &mut seen);
    assert_eq!(h.received(s, 2), Some(b"ping\npong\n".to_vec()));
    assert_eq!(h.received(s, 1), None);
    assert_eq!(h.ended(s, 1), Some(false));
    assert_eq!(h.handle(&Request::Kill { session: s }, 0), Reply::Done);
    assert_eq!(h.session(s).unwrap().state, SessionState::Active);
    assert_eq!(h.child_exited(s), Ok(()));
    assert_eq!(h.ended(s, 1), Some(true));
    assert_eq!(h.ended(s, 2), Some(true));
    assert_eq!(h.session(s).unwrap().state, SessionState::Killed);
    assert_eq!(h.handle(&Request::Kill { session: s }, 0), Reply::Done);
    assert_eq!(h.kill(s), Ok(false));
}

#[test]
fn requests_on_unknown_sessions_fail() {
    let mut h = hub();
    let e = Reply::Error(ErrorKind::SessionNotFound);
    assert_eq!(h.handle(&Request::Attach { session: 5, link: 1 }, 0), e);
    assert_eq!(h.handle(&Request::Detach { session: 5, link: 1 }, 0), e);
    assert_eq!(h.handle(&Request::Resize { session: 5, rows: 1, cols: 1 }, 0), e);
    let input = Request::Input { session: 5, link: 1, seq: 0, data: vec![1] };
    assert_eq!(h.handle(&input, 0), e);
    assert_eq!(h.handle(&Request::Kill { session: 5 }, 0), e);
}

#[test]
fn link_errors_are_protocol_errors() {
    let mut h = hub();
    let s = h.spawn(24, 80, 0).unwrap();
    let e = Reply::Error(ErrorKind::ProtocolError);
    assert_eq!(h.handle(&Request::Attach { session: s, link: 1 }, 0), Reply::Done);
    assert_eq!(h.handle(&Request::Attach { session: s, link: 1 }, 0), e);
    assert_eq!(h.handle(&Request::Detach { session: s, link: 2 }, 0), e);
    let input = Request::Input { session: s, link: 2, seq: 0, data: vec![1] };
    assert_eq!(h.handle(&input, 0), e);
}

#[test]
fn resize_reaches_the_registry() {
    let mut h = hub();
    let s = h.spawn(24, 80, 7).unwrap();
    assert_eq!(h.handle(&Request::Resize { session: s, rows: 40, cols: 120 }, 0), Reply::Done);
    let x = h.session(s).unwrap();
    assert_eq!((x.rows, x.cols, x.created_at), (40, 120, 7));
}

#[test]
fn late_attach_gets_history_and_exit_ends_stream() {
    let mut h = hub();
    let s = h.spawn(24, 80, 0).unwrap();
    assert!(h.output(s, b"banner"));
    assert_eq!(h.attach(s, 3), Ok(()));
    assert_eq!(h.received(s, 3), Some(b"banner".to_vec()));
    assert_eq!(h.child_exited(s), Ok(()));
    assert_eq!(h.ended(s, 3), Some(true));
    assert_eq!(h.session(s).unwrap().state, SessionState::Exited);
    assert_eq!(h.attach(s, 4), Err(ErrorKind::SessionNotFound));
    assert_eq!(h.kill(s), Ok(false));
    assert_eq!(h.session(s).unwrap().state, SessionState::Exited);
}

#[test]
fn reap_drops_only_ended_sessions() {
    let mut h = hub();
    let a = h.spawn(24, 80, 0).unwrap();
    let b = h.spawn(24, 80, 0).unwrap();
    assert!(!h.reap(a));
    assert_eq!(h.kill(a), Ok(true));
    assert!(!h.reap(a));
    assert_eq!(h.child_exited(a), Ok(()));
    assert!(h.reap(a));
    assert_eq!(h.session(a), None);
    assert!(h.session(b).is_some());
    assert!(h.output(b, b"x"));
    assert!(!h.output(a, b"x"));
}

#[test]
fn status_reports_backend_state() {
    let mut h = hub();
    let sub = Request::StatusSubscribe { link: 4 };
    assert_eq!(h.handle(&sub, 0), Reply::StatusEvent(BackendState::Stopped, 0));
    assert_eq!(h.handle(&sub, 0), Reply::StatusEvent(BackendState::Stopped, 0));
    assert_eq!(h.subscribers(), vec![4]);
    assert_eq!(h.backend_error(), None);
    let (_, notice) = h.backend_event(SupervisorEvent::Start);
    assert_eq!(notice, Some(Reply::StatusEvent(BackendState::Starting, 0)));
    h.backend_event(SupervisorEvent::ProbeOk(0));
    let (_, notice) = h.backend_event(SupervisorEvent::ProbeOk(1));
    assert_eq!(notice, None);
    assert_eq!(h.status(), Reply::StatusEvent(BackendState::Healthy, 0));
    h.backend_event(SupervisorEvent::ProbeFailed);
    assert_eq!(h.status(), Reply::StatusEvent(BackendState::Unhealthy, 0));
    assert_eq!(h.backend_error(), Some(ErrorKind::BackendUnhealthy));
    let (action, notice) = h.backend_event(SupervisorEvent::ProbeFailed);
    assert_eq!(action, SupervisorAction::KillProcess);
    assert_eq!(notice, Some(Reply::StatusEvent(BackendState::Restarting, 0)));
    let (action, _) = h.backend_event(SupervisorEvent::RestartCompleted);
    assert_eq!(action, SupervisorAction::GiveUp);
    assert_eq!(h.backend_error(), Some(ErrorKind::BackendFatal));
    h.unsubscribe(4);
    assert!(h.subscribers().is_empty());
}

#[test]
fn detached_link_gets_end_of_stream_until_it_disconnects() {
    let mut h = hub();
    let s = h.spawn(24, 80, 0).unwrap();
    assert_eq!(h.attach(s, 1), Ok(()));
    assert_eq!(h.attach(s, 2), Ok(()));
    assert_eq!(h.attach(s, 3), Ok(()));
    assert_eq!(h.detach(s, 1), Ok(()));
    assert_eq!(h.detach(s, 2), Ok(()));
    assert!(h.disconnect(s, 2));
    assert!(h.disconnect(s, 3));
    assert!(h.output(s, b"x"));
    assert_eq!(h.received(s, 1), None);
    assert_eq!(h.child_exited(s), Ok(()));
    assert_eq!(h.ended(s, 1), Some(true));
    assert_eq!(h.ended(s, 2), None);
    assert_eq!(h.ended(s, 3), None);
    assert!(!h.disconnect(77, 1));
}

#[test]
fn reconcile_marks_exited_children_and_skips_the_rest() {
    let mut h = hub();
    let a = h.spawn(24, 80, 0).unwrap();
    let b = h.spawn(24, 80, 0).unwrap();
    let c = h.spawn(24, 80, 0).unwrap();
    assert_eq!(h.attach(a, 1), Ok(()));
    assert_eq!(h.kill(c), Ok(true));
    h.reconcile(&[a, c, 99]);
    assert_eq!(h.session(a).unwrap().state, SessionState::Exited);
    assert_eq!(h.ended(a, 1), Some(true));
    assert_eq!(h.session(b).unwrap().state, SessionState::Active);
    assert_eq!(h.session(c).unwrap().state, SessionState::Killed);
}

#[test]
fn take_drains_one_link_only() {
    let mut h = hub();
    let s = h.spawn(24, 80, 0).unwrap();
    assert_eq!(h.attach(s, 1), Ok(()));
    assert_eq!(h.attach(s, 2), Ok(()));
    assert!(h.output(s, b"out"));
    assert_eq!(h.take(s, 1), Some(b"out".to_vec()));
    assert_eq!(h.received(s, 1), Some(Vec::new()));
    assert_eq!(h.received(s, 2), Some(b"out".to_vec()));
    assert_eq!(h.take(s, 9), None);
    assert_eq!(h.take(99, 1), None);
}

#[test]
fn frames_drive_the_hub() {
    let mut h = hub();
    let spawn = decode_request(&encode_request(&spawn_req())).unwrap();
    assert_eq!(encode_reply(h.handle(&spawn, 0)), vec![8, 0, 0, 0, 0, 0, 0, 0, 1]);
    let kill = decode_request(&[6, 0, 0, 0, 0, 0, 0, 0, 2]).unwrap();
    assert_eq!(encode_reply(h.handle(&kill, 0)), vec![10, 4]);
    let bad = decode_request(&[6, 0]);
    assert_eq!(bad, Err(ErrorKind::ProtocolError));
}
