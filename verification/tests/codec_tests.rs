use points_store::codec::{Codec, DecodeError, Request, Response};

fn frame(command: u8, body: &[u8]) -> Vec<u8> {
    let mut out = vec![command];
    out.extend_from_slice(&(body.len() as u32).to_be_bytes());
    out.extend_from_slice(body);
    out
}

#[test]
fn decode_connect() {
    let mut codec = Codec::default();
    let mut buf = frame(1, b"foo");
    let got = codec.decode(&mut buf).unwrap().unwrap();
    assert_eq!(
        got,
        Request::Connect {
            channel: "foo".to_string()
        }
    );
    assert!(buf.is_empty());
}

#[test]
fn decode_get() {
    let mut codec = Codec::default();
    let mut buf = frame(2, b"alice");
    let got = codec.decode(&mut buf).unwrap().unwrap();
    assert_eq!(
        got,
        Request::Get {
            user: "alice".to_string()
        }
    );
}

#[test]
fn decode_bulk_edit() {
    let mut codec = Codec::default();
    let mut body = (-5i32).to_be_bytes().to_vec();
    body.extend_from_slice(b"a;b");
    let mut buf = frame(3, &body);
    let got = codec.decode(&mut buf).unwrap().unwrap();
    assert_eq!(
        got,
        Request::BulkEdit {
            users: vec!["a".to_string(), "b".to_string()],
            points: -5
        }
    );
}

#[test]
fn decode_bulk_edit_keeps_empty_chunks() {
    let mut codec = Codec::default();
    let mut body = 7i32.to_be_bytes().to_vec();
    body.extend_from_slice(b"a;;b;");
    let mut buf = frame(3, &body);
    let got = codec.decode(&mut buf).unwrap().unwrap();
    assert_eq!(
        got,
        Request::BulkEdit {
            users: vec![
                "a".to_string(),
                "".to_string(),
                "b".to_string(),
                "".to_string()
            ],
            points: 7
        }
    );
}

#[test]
fn decode_add() {
    let mut codec = Codec::default();
    let mut body = 100u64.to_be_bytes().to_vec();
    body.extend_from_slice(b"alice");
    let mut buf = frame(4, &body);
    let got = codec.decode(&mut buf).unwrap().unwrap();
    assert_eq!(
        got,
        Request::Add {
            user: "alice".to_string(),
            points: 100
        }
    );
}

#[test]
fn decode_remove_forced_and_unforced() {
    for (flag, force) in [(0u8, false), (1u8, true), (7u8, true)] {
        let mut codec = Codec::default();
        let mut body = vec![flag];
        body.extend_from_slice(&150u64.to_be_bytes());
        body.extend_from_slice(b"bob");
        let mut buf = frame(5, &body);
        let got = codec.decode(&mut buf).unwrap().unwrap();
        assert_eq!(
            got,
            Request::Remove {
                user: "bob".to_string(),
                points: 150,
                force
            }
        );
    }
}

#[test]
fn decode_waits_for_full_header() {
    let mut codec = Codec::default();
    let mut buf = vec![1, 0, 0];
    assert_eq!(codec.decode(&mut buf), Ok(None));
    assert_eq!(buf, vec![1, 0, 0]);
}

#[test]
fn decode_resumes_after_partial_body() {
    let mut codec = Codec::default();
    let whole = frame(1, b"chat");
    let mut buf = whole[..6].to_vec();
    assert_eq!(codec.decode(&mut buf), Ok(None));
    // the header is consumed and retained; only one body byte is buffered
    assert_eq!(buf, vec![b'c']);
    buf.extend_from_slice(&whole[6..]);
    let got = codec.decode(&mut buf).unwrap().unwrap();
    assert_eq!(
        got,
        Request::Connect {
            channel: "chat".to_string()
        }
    );
    assert!(buf.is_empty());
}

#[test]
fn decode_leaves_following_frame_in_buffer() {
    let mut codec = Codec::default();
    let mut buf = frame(2, b"a");
    let second = frame(2, b"b");
    buf.extend_from_slice(&second);
    let got = codec.decode(&mut buf).unwrap().unwrap();
    assert_eq!(got, Request::Get { user: "a".to_string() });
    assert_eq!(buf, second);
    let got = codec.decode(&mut buf).unwrap().unwrap();
    assert_eq!(got, Request::Get { user: "b".to_string() });
}

#[test]
fn decode_short_body_is_error() {
    for (cmd, body) in [
        (1u8, &b""[..]),
        (2, b""),
        (3, b"abcd"),
        (4, b"12345678"),
        (5, b"123456789"),
    ] {
        let mut codec = Codec::default();
        let mut buf = frame(cmd, body);
        assert_eq!(codec.decode(&mut buf), Err(DecodeError::ShortBody));
    }
}

#[test]
fn decode_invalid_utf8_is_error() {
    let mut codec = Codec::default();
    let mut buf = frame(1, &[0xFF, 0xFE]);
    assert_eq!(codec.decode(&mut buf), Err(DecodeError::InvalidUtf8));
}

#[test]
fn decode_unknown_command_is_error() {
    let mut codec = Codec::default();
    let mut buf = frame(9, b"x");
    assert_eq!(codec.decode(&mut buf), Err(DecodeError::UnknownCommand(9)));
}

#[test]
fn decode_non_ascii_channel() {
    let mut codec = Codec::default();
    let mut buf = frame(1, "caf\u{e9}".as_bytes());
    let got = codec.decode(&mut buf).unwrap().unwrap();
    assert_eq!(
        got,
        Request::Connect {
            channel: "caf\u{e9}".to_string()
        }
    );
}

#[test]
fn encode_u64_response() {
    let codec = Codec::default();
    let mut out = Vec::new();
    codec.encode(Response::U64(1337), &mut out);
    assert_eq!(out, 1337u64.to_be_bytes().to_vec());
}

#[test]
fn encode_result_responses() {
    let codec = Codec::default();
    let mut out = Vec::new();
    codec.encode(Response::ResultU64((true, 100)), &mut out);
    codec.encode(Response::ResultU64((false, 7)), &mut out);
    let mut expected = vec![0u8];
    expected.extend_from_slice(&100u64.to_be_bytes());
    expected.push(1);
    expected.extend_from_slice(&7u64.to_be_bytes());
    assert_eq!(out, expected);
}

#[test]
fn response_from_conversions() {
    assert_eq!(Response::from(5u64), Response::U64(5));
    assert_eq!(
        Response::from(Ok::<u64, u64>(10)),
        Response::ResultU64((true, 10))
    );
    assert_eq!(
        Response::from(Err::<u64, u64>(3)),
        Response::ResultU64((false, 3))
    );
}
