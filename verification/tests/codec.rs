use rdkv::protocol::encode_command;
use rdkv::protocol::encode_response;
use rdkv::protocol::Command;
use rdkv::protocol::encodable;
use rdkv::protocol::Frame;
use rdkv::protocol::Response;
use rdkv::protocol::MAX_FRAME;

const MAGIC: u16 = 0x5244;
const VERSION: u8 = 1;

fn push_u16_be(buf: &mut Vec<u8>, v: u16) {
    buf.push((v >> 8) as u8);
    buf.push(v as u8);
}

fn push_u32_be(buf: &mut Vec<u8>, v: u32) {
    buf.push((v >> 24) as u8);
    buf.push((v >> 16) as u8);
    buf.push((v >> 8) as u8);
    buf.push(v as u8);
}

#[test]
fn parse_get_full_frame() {
    let mut buf: Vec<u8> = Vec::new();
    let key = b"foo";
    let payload_len = 2 + key.len() as u32;

    // header
    push_u16_be(&mut buf, MAGIC);
    buf.push(VERSION);
    buf.push(1); // GET
    push_u32_be(&mut buf, 42);
    push_u32_be(&mut buf, payload_len);

    // payload
    push_u16_be(&mut buf, key.len() as u16);
    buf.extend_from_slice(key);

    let mut frame = Frame::new();
    let cmd = frame.try_parse(&mut buf).expect("cmd");

    match cmd {
        Command::Get { req_id, key } => {
            assert_eq!(req_id, 42);
            assert_eq!(&key[..], b"foo");
        }
        _ => panic!("expected GET"),
    }
}

#[test]
fn parse_set_full_frame() {
    let mut buf: Vec<u8> = Vec::new();
    let key = b"foo";
    let val = b"bar";
    let payload_len = 2 + key.len() as u32 + 4 + val.len() as u32;

    // header
    push_u16_be(&mut buf, MAGIC);
    buf.push(VERSION);
    buf.push(2); // SET
    push_u32_be(&mut buf, 7);
    push_u32_be(&mut buf, payload_len);

    // payload
    push_u16_be(&mut buf, key.len() as u16);
    buf.extend_from_slice(key);
    push_u32_be(&mut buf, val.len() as u32);
    buf.extend_from_slice(val);

    let mut frame = Frame::new();
    let cmd = frame.try_parse(&mut buf).expect("cmd");

    match cmd {
        Command::Put { req_id, key, value } => {
            assert_eq!(req_id, 7);
            assert_eq!(&key[..], b"foo");
            assert_eq!(&value[..], b"bar");
        }
        _ => panic!("expected SET"),
    }
}

#[test]
fn parse_get_incremental() {
    let mut buf: Vec<u8> = Vec::new();
    let key = b"abc";
    let payload_len = 2 + key.len() as u32;

    // header only
    push_u16_be(&mut buf, MAGIC);
    buf.push(VERSION);
    buf.push(1); // GET
    push_u32_be(&mut buf, 99);
    push_u32_be(&mut buf, payload_len);

    let mut frame = Frame::new();
    assert!(frame.try_parse(&mut buf).is_none());

    // payload arrives later
    push_u16_be(&mut buf, key.len() as u16);
    buf.extend_from_slice(key);

    let cmd = frame.try_parse(&mut buf).expect("cmd");
    match cmd {
        Command::Get { req_id, key } => {
            assert_eq!(req_id, 99);
            assert_eq!(&key[..], b"abc");
        }
        _ => panic!("expected GET"),
    }
}

#[test]
fn split_frame_parses_only_when_complete() {
    // a SET frame split at byte 5: the first half yields nothing, the second
    // yields exactly one command
    let frame_bytes = encode_command(Command::Put {
        req_id: 11,
        key: b"foo".to_vec(),
        value: b"bar".to_vec(),
    });
    let (first, second) = frame_bytes.split_at(5);

    let mut decoder = Frame::new();
    let mut buf: Vec<u8> = first.to_vec();
    assert!(decoder.try_parse(&mut buf).is_none());

    buf.extend_from_slice(second);
    let cmd = decoder.try_parse(&mut buf).expect("cmd");
    match cmd {
        Command::Put { req_id, key, value } => {
            assert_eq!(req_id, 11);
            assert_eq!(&key[..], b"foo");
            assert_eq!(&value[..], b"bar");
        }
        _ => panic!("expected SET"),
    }
    assert!(buf.is_empty());

    // fed whole, the same frame yields the same command
    let mut decoder2 = Frame::new();
    let mut whole = encode_command(Command::Put {
        req_id: 11,
        key: b"foo".to_vec(),
        value: b"bar".to_vec(),
    });
    match decoder2.try_parse(&mut whole).expect("cmd") {
        Command::Put { req_id, key, value } => {
            assert_eq!(req_id, 11);
            assert_eq!(&key[..], b"foo");
            assert_eq!(&value[..], b"bar");
        }
        _ => panic!("expected SET"),
    }
}

#[test]
fn byte_at_a_time_feeding() {
    let frame_bytes = encode_command(Command::Delete {
        req_id: 5,
        key: b"k1".to_vec(),
    });
    let mut decoder = Frame::new();
    let mut buf: Vec<u8> = Vec::new();
    let mut parsed: Vec<Command> = Vec::new();
    for (i, byte) in frame_bytes.iter().enumerate() {
        buf.push(*byte);
        if let Some(cmd) = decoder.try_parse(&mut buf) {
            assert_eq!(i, frame_bytes.len() - 1, "command must appear only on the last byte");
            parsed.push(cmd);
        }
    }
    assert_eq!(parsed.len(), 1);
    match &parsed[0] {
        Command::Delete { req_id, key } => {
            assert_eq!(*req_id, 5);
            assert_eq!(&key[..], b"k1");
        }
        _ => panic!("expected DELETE"),
    }
}

#[test]
fn two_frames_in_one_read() {
    let mut buf = encode_command(Command::Put {
        req_id: 1,
        key: b"a".to_vec(),
        value: b"1".to_vec(),
    });
    buf.extend_from_slice(&encode_command(Command::Get {
        req_id: 2,
        key: b"a".to_vec(),
    }));
    let mut decoder = Frame::new();
    match decoder.try_parse(&mut buf).expect("first") {
        Command::Put { req_id, .. } => assert_eq!(req_id, 1),
        _ => panic!("expected SET"),
    }
    match decoder.try_parse(&mut buf).expect("second") {
        Command::Get { req_id, .. } => assert_eq!(req_id, 2),
        _ => panic!("expected GET"),
    }
    assert!(buf.is_empty());
    assert!(decoder.try_parse(&mut buf).is_none());
}

#[test]
fn bad_magic_is_fatal() {
    let mut buf = vec![0u8; 12];
    let mut decoder = Frame::new();
    assert!(decoder.try_parse(&mut buf).is_none());
    assert!(decoder.has_failed());
}

#[test]
fn bad_version_is_fatal() {
    let mut buf: Vec<u8> = Vec::new();
    push_u16_be(&mut buf, MAGIC);
    buf.push(2); // wrong version
    buf.push(1);
    push_u32_be(&mut buf, 1);
    push_u32_be(&mut buf, 0);
    let mut decoder = Frame::new();
    assert!(decoder.try_parse(&mut buf).is_none());
    assert!(decoder.has_failed());
}

#[test]
fn unknown_opcode_is_fatal() {
    let mut buf: Vec<u8> = Vec::new();
    push_u16_be(&mut buf, MAGIC);
    buf.push(VERSION);
    buf.push(9); // unknown opcode
    push_u32_be(&mut buf, 1);
    push_u32_be(&mut buf, 0);
    let mut decoder = Frame::new();
    assert!(decoder.try_parse(&mut buf).is_none());
    assert!(decoder.has_failed());
}

#[test]
fn oversized_payload_is_fatal_without_partial_command() {
    let mut buf: Vec<u8> = Vec::new();
    push_u16_be(&mut buf, MAGIC);
    buf.push(VERSION);
    buf.push(2);
    push_u32_be(&mut buf, 1);
    push_u32_be(&mut buf, (MAX_FRAME as u32) + 1);
    let mut decoder = Frame::new();
    assert!(decoder.try_parse(&mut buf).is_none());
    assert!(decoder.has_failed());
    // once failed, later bytes never produce a command
    buf.extend_from_slice(&[0u8; 64]);
    assert!(decoder.try_parse(&mut buf).is_none());
}

#[test]
fn encode_ok_without_value() {
    let bytes = encode_response(Response::Okay {
        req_id: 1,
        value: None,
    });
    assert_eq!(bytes, vec![0x44, 0x52, 1, 0, 1, 0, 0, 0, 0, 0, 0, 0]);
}

#[test]
fn encode_ok_with_value() {
    let bytes = encode_response(Response::Okay {
        req_id: 2,
        value: Some(b"bar".to_vec()),
    });
    assert_eq!(
        bytes,
        vec![0x44, 0x52, 1, 0, 2, 0, 0, 0, 7, 0, 0, 0, 3, 0, 0, 0, b'b', b'a', b'r']
    );
}

#[test]
fn encode_not_found() {
    let bytes = encode_response(Response::NotFound { req_id: 7 });
    assert_eq!(bytes, vec![0x44, 0x52, 1, 1, 7, 0, 0, 0, 0, 0, 0, 0]);
}

#[test]
fn encode_err_message() {
    let bytes = encode_response(Response::Error {
        req_id: 9,
        message: b"bad".to_vec(),
    });
    assert_eq!(
        bytes,
        vec![0x44, 0x52, 1, 2, 9, 0, 0, 0, 5, 0, 0, 0, 3, 0, b'b', b'a', b'd']
    );
}

#[test]
fn encodable_rejects_oversized_error_message() {
    let ok = Response::Error {
        req_id: 1,
        message: vec![b'x'; 65535],
    };
    let too_big = Response::Error {
        req_id: 1,
        message: vec![b'x'; 65536],
    };
    assert!(encodable(&ok));
    assert!(!encodable(&too_big));
    assert!(encodable(&Response::Okay { req_id: 1, value: Some(vec![0u8; 10]) }));
}

#[test]
fn encoded_request_uses_big_endian_fields() {
    let bytes = encode_command(Command::Get {
        req_id: 0x01020304,
        key: b"ab".to_vec(),
    });
    assert_eq!(
        bytes,
        vec![0x52, 0x44, 1, 1, 1, 2, 3, 4, 0, 0, 0, 4, 0, 2, b'a', b'b']
    );
}
