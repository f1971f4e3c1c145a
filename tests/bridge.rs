use sessionhub::bridge::Bridge;

#[test]
fn input_reaches_terminal_in_send_order() {
    let mut b = Bridge::new(16);
    assert!(b.attach(1));
    assert!(b.input(1, b"ls"));
    assert!(b.input(1, b" -l"));
    assert!(b.input(1, b"\n"));
    assert_eq!(b.pty_input(), b"ls -l\n".to_vec());
}

#[test]
fn input_from_unattached_link_is_refused() {
    let mut b = Bridge::new(16);
    assert!(!b.input(9, b"x"));
    assert!(b.pty_input().is_empty());
}

#[test]
fn output_reaches_every_link_once_in_order_across_attach_and_detach() {
    let mut b = Bridge::new(64);
    assert!(b.attach(1));
    b.output(b"one ");
    assert!(b.attach(2));
    b.output(b"two ");
    assert!(b.detach(2));
    assert!(b.attach(3));
    b.output(b"three");
    assert_eq!(b.received(1), Some(b"one two three".to_vec()));
    assert_eq!(b.received(2), None);
    assert_eq!(b.received(3), Some(b"one two three".to_vec()));
}

#[test]
fn duplicate_attach_is_refused() {
    let mut b = Bridge::new(8);
    assert!(b.attach(1));
    assert!(!b.attach(1));
    assert!(!b.detach(2));
}

#[test]
fn late_attach_receives_most_recent_bytes_only() {
    let mut b = Bridge::new(5);
    b.output(b"hello ");
    b.output(b"world");
    assert_eq!(b.history(), b"world".to_vec());
    assert!(b.attach(7));
    assert_eq!(b.received(7), Some(b"world".to_vec()));
}

#[test]
fn close_sends_end_of_stream_and_stops_traffic() {
    let mut b = Bridge::new(8);
    assert!(b.attach(1));
    assert_eq!(b.ended(1), Some(false));
    b.close();
    assert!(b.is_closed());
    assert_eq!(b.ended(1), Some(true));
    b.output(b"late");
    assert_eq!(b.received(1), Some(Vec::new()));
    assert!(!b.input(1, b"x"));
    assert!(!b.attach(2));
}

#[test]
fn take_hands_over_pending_bytes_once() {
    let mut b = Bridge::new(8);
    assert!(b.attach(1));
    b.output(b"ab");
    b.output(b"c");
    assert_eq!(b.take(1), Some(b"abc".to_vec()));
    assert_eq!(b.take(1), Some(Vec::new()));
    b.output(b"d");
    assert_eq!(b.received(1), Some(b"d".to_vec()));
    assert_eq!(b.take(2), None);
    assert_eq!(b.history(), b"abcd".to_vec());
}

#[test]
fn detached_link_is_owed_end_of_stream() {
    let mut b = Bridge::new(8);
    assert!(b.attach(1));
    assert!(b.detach(1));
    assert_eq!(b.ended(1), Some(false));
    b.close();
    assert_eq!(b.ended(1), Some(true));
    b.disconnect(1);
    assert_eq!(b.ended(1), None);
    assert_eq!(b.ended(2), None);
}
