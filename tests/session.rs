use sessionhub::session::{Registry, SessionError, SessionState};

#[test]
fn spawn_hands_out_increasing_ids() {
    let mut r = Registry::new();
    let a = r.spawn(24, 80, 5).unwrap();
    let b = r.spawn(30, 100, 6).unwrap();
    assert_eq!(a, 1);
    assert_eq!(b, 2);
    let s = r.get(b).unwrap();
    assert_eq!((s.rows, s.cols, s.created_at, s.state), (30, 100, 6, SessionState::Active));
    assert_eq!(r.len(), 2);
}

#[test]
fn ids_are_not_reused_after_removal() {
    let mut r = Registry::new();
    let a = r.spawn(24, 80, 0).unwrap();
    assert_eq!(r.kill(a), Ok(true));
    assert!(!r.remove(a));
    assert!(r.mark_exited(a));
    assert!(r.remove(a));
    let b = r.spawn(24, 80, 1).unwrap();
    assert_ne!(a, b);
    assert_eq!(r.get(a), None);
}

#[test]
fn resize_live_session() {
    let mut r = Registry::new();
    let a = r.spawn(24, 80, 0).unwrap();
    assert_eq!(r.resize(a, 50, 132), Ok(()));
    let s = r.get(a).unwrap();
    assert_eq!((s.rows, s.cols), (50, 132));
}

#[test]
fn resize_unknown_or_exited_session_fails() {
    let mut r = Registry::new();
    assert_eq!(r.resize(42, 1, 1), Err(SessionError::SessionNotFound));
    let a = r.spawn(24, 80, 0).unwrap();
    assert!(r.mark_exited(a));
    assert_eq!(r.resize(a, 1, 1), Err(SessionError::SessionNotFound));
}

#[test]
fn kill_twice_moves_once_and_second_is_no_error() {
    let mut r = Registry::new();
    let a = r.spawn(24, 80, 0).unwrap();
    assert_eq!(r.kill(a), Ok(true));
    assert_eq!(r.kill(a), Ok(false));
    let s = r.get(a).unwrap();
    assert_eq!((s.state, s.kill_requested), (SessionState::Active, true));
    assert!(r.mark_exited(a));
    assert_eq!(r.get(a).unwrap().state, SessionState::Killed);
    assert!(!r.mark_exited(a));
    assert_eq!(r.kill(a), Ok(false));
    assert_eq!(r.get(a).unwrap().state, SessionState::Killed);
}

#[test]
fn kill_after_exit_is_a_no_op() {
    let mut r = Registry::new();
    let a = r.spawn(24, 80, 0).unwrap();
    assert!(r.mark_exited(a));
    assert!(!r.mark_exited(a));
    assert_eq!(r.kill(a), Ok(false));
    assert_eq!(r.get(a).unwrap().state, SessionState::Exited);
}

#[test]
fn kill_unknown_session_fails() {
    let mut r = Registry::new();
    assert_eq!(r.kill(3), Err(SessionError::SessionNotFound));
}

#[test]
fn live_session_is_never_removed() {
    let mut r = Registry::new();
    let a = r.spawn(24, 80, 0).unwrap();
    assert!(!r.remove(a));
    assert_eq!(r.len(), 1);
}
