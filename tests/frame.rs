use sessionhub::frame::{
    decode_request, encode_end_of_stream, encode_output, encode_reply, encode_request,
};
use sessionhub::hub::{ErrorKind, Reply, Request};
use sessionhub::supervisor::BackendState;

#[test]
fn decode_attach_frame() {
    let bytes = vec![2, 0, 0, 0, 0, 0, 0, 1, 2, 0, 0, 0, 0, 0, 0, 0, 9];
    let q = decode_request(&bytes).unwrap();
    assert_eq!(q, Request::Attach { session: 258, link: 9 });
}

#[test]
fn decode_spawn_and_resize_frames() {
    let bytes = vec![
        1, 0, 24, 0, 80, 0, 1, 0, 0, 0, 2, b's', b'h', 0, 0, 0, 4, b'/', b't', b'm', b'p', 0, 0,
        0, 2, b'-', b'c',
    ];
    let q = decode_request(&bytes).unwrap();
    let want = Request::Spawn {
        rows: 24,
        cols: 80,
        program: b"sh".to_vec(),
        args: vec![b"-c".to_vec()],
        cwd: b"/tmp".to_vec(),
    };
    assert_eq!(q, want);
    assert_eq!(encode_request(&want), bytes);
    let shell = vec![1, 0, 24, 0, 80, 0, 0, 0, 0, 0, 0, 0, 0, 0, 0];
    let q = decode_request(&shell).unwrap();
    let want = Request::Spawn { rows: 24, cols: 80, program: Vec::new(), args: Vec::new(), cwd: Vec::new() };
    assert_eq!(q, want);
    let q = decode_request(&[4, 0, 0, 0, 0, 0, 0, 0, 3, 1, 0, 0, 132]).unwrap();
    assert_eq!(q, Request::Resize { session: 3, rows: 256, cols: 132 });
}

#[test]
fn decode_input_frame_keeps_payload() {
    let mut bytes = vec![5, 0, 0, 0, 0, 0, 0, 0, 1, 0, 0, 0, 0, 0, 0, 0, 2, 0, 0, 1, 0];
    bytes.extend_from_slice(b"ping\n");
    let q = decode_request(&bytes).unwrap();
    assert_eq!(q, Request::Input { session: 1, link: 2, seq: 256, data: b"ping\n".to_vec() });
}

#[test]
fn decode_status_subscribe_frame() {
    let q = decode_request(&[7, 0, 0, 0, 0, 0, 0, 0, 5]).unwrap();
    assert_eq!(q, Request::StatusSubscribe { link: 5 });
}

#[test]
fn malformed_frames_are_protocol_errors() {
    assert!(matches!(decode_request(&[]), Err(ErrorKind::ProtocolError)));
    assert!(matches!(decode_request(&[99]), Err(ErrorKind::ProtocolError)));
    assert!(matches!(decode_request(&[1, 0, 24, 0]), Err(ErrorKind::ProtocolError)));
    assert!(matches!(decode_request(&[7, 0]), Err(ErrorKind::ProtocolError)));
    assert!(matches!(decode_request(&[6, 0, 0, 0]), Err(ErrorKind::ProtocolError)));
    assert!(matches!(decode_request(&[5, 0, 0]), Err(ErrorKind::ProtocolError)));
    let short_input = vec![5, 0, 0, 0, 0, 0, 0, 0, 1, 0, 0, 0, 0, 0, 0, 0, 2];
    assert!(matches!(decode_request(&short_input), Err(ErrorKind::ProtocolError)));
    // a program length running past the end
    let long = vec![1, 0, 24, 0, 80, 0, 0, 0, 0, 0, 9, b'x'];
    assert!(matches!(decode_request(&long), Err(ErrorKind::ProtocolError)));
    // one argument announced, none present
    let missing = vec![1, 0, 24, 0, 80, 0, 1, 0, 0, 0, 0, 0, 0, 0, 0];
    assert!(matches!(decode_request(&missing), Err(ErrorKind::ProtocolError)));
    // bytes after the last field
    let trailing = vec![1, 0, 24, 0, 80, 0, 0, 0, 0, 0, 0, 0, 0, 0, 0, 7];
    assert!(matches!(decode_request(&trailing), Err(ErrorKind::ProtocolError)));
}

#[test]
fn requests_round_trip() {
    let all = vec![
        Request::Spawn { rows: 65535, cols: 1, program: Vec::new(), args: Vec::new(), cwd: Vec::new() },
        Request::Spawn {
            rows: 1,
            cols: 2,
            program: b"/bin/echo".to_vec(),
            args: vec![b"a".to_vec(), Vec::new(), b"bc".to_vec()],
            cwd: b"/".to_vec(),
        },
        Request::Attach { session: u64::MAX, link: 0 },
        Request::Detach { session: 7, link: 8 },
        Request::Resize { session: 1, rows: 2, cols: 3 },
        Request::Input { session: 4, link: 5, seq: 7, data: vec![0, 255, 10] },
        Request::Input { session: 4, link: 5, seq: u32::MAX, data: Vec::new() },
        Request::Kill { session: 12345678901 },
        Request::StatusSubscribe { link: 3 },
    ];
    for q in all.iter() {
        let back = decode_request(&encode_request(q)).unwrap();
        assert_eq!(&back, q);
    }
}

#[test]
fn kill_frame_bytes() {
    assert_eq!(encode_request(&Request::Kill { session: 0x0102 }), vec![6, 0, 0, 0, 0, 0, 0, 1, 2]);
}

#[test]
fn reply_frames() {
    assert_eq!(encode_reply(Reply::Done), vec![9]);
    assert_eq!(encode_reply(Reply::SpawnResult(5)), vec![8, 0, 0, 0, 0, 0, 0, 0, 5]);
    assert_eq!(encode_reply(Reply::Error(ErrorKind::SessionNotFound)), vec![10, 4]);
    assert_eq!(
        encode_reply(Reply::StatusEvent(BackendState::Restarting, 258)),
        vec![11, 4, 0, 0, 1, 2]
    );
}

#[test]
fn output_and_end_of_stream_frames() {
    assert_eq!(
        encode_output(1, 2, b"hi"),
        vec![12, 0, 0, 0, 0, 0, 0, 0, 1, 0, 0, 0, 2, b'h', b'i']
    );
    assert_eq!(encode_output(0, 0, b""), vec![12, 0, 0, 0, 0, 0, 0, 0, 0, 0, 0, 0, 0]);
    assert_eq!(encode_end_of_stream(3), vec![13, 0, 0, 0, 0, 0, 0, 0, 3]);
}
