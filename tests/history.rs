use sessionhub::history::History;

#[test]
fn history_keeps_everything_under_capacity() {
    let mut h = History::new(8);
    h.push(b"abc");
    h.push(b"de");
    assert_eq!(h.contents(), b"abcde".to_vec());
    assert_eq!(h.cap(), 8);
}

#[test]
fn history_drops_oldest_on_overflow() {
    let mut h = History::new(4);
    h.push(b"abc");
    h.push(b"defg");
    assert_eq!(h.contents(), b"defg".to_vec());
    h.push(b"h");
    assert_eq!(h.contents(), b"efgh".to_vec());
}

#[test]
fn history_with_zero_capacity_keeps_nothing() {
    let mut h = History::new(0);
    h.push(b"xyz");
    assert!(h.contents().is_empty());
}

#[test]
fn history_push_of_nothing_changes_nothing() {
    let mut h = History::new(3);
    h.push(b"ab");
    h.push(b"");
    assert_eq!(h.contents(), b"ab".to_vec());
}
