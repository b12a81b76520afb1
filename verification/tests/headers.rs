use rdkv::protocol::create_response_header;
use rdkv::protocol::parse_req_header;
use rdkv::protocol::OpCode;
use rdkv::protocol::Status;

#[test]
fn parse_req_header_waits_for_twelve_bytes() {
    let mut buf = vec![0x52, 0x44, 1];
    assert!(parse_req_header(&mut buf).is_none());
    assert_eq!(buf.len(), 3, "nothing is consumed while the header is short");
}

#[test]
fn parse_req_header_reads_big_endian_fields() {
    let mut buf = vec![
        0x52, 0x44, // magic
        1,    // version
        1,    // GET
        0, 0, 0, 5, // req_id = 5
        0, 0, 0, 2, // payload_len = 2
        0xaa, // first payload byte
    ];
    let header = parse_req_header(&mut buf).expect("header");
    assert_eq!(header.opcode, OpCode::Get);
    assert_eq!(header.req_id, 5);
    assert_eq!(header.payload_len, 2);
    assert_eq!(buf, vec![0xaa], "exactly the 12 header bytes are consumed");
}

#[test]
fn parse_req_header_rejects_bad_magic_unchanged() {
    let mut buf = vec![0u8; 12];
    assert!(parse_req_header(&mut buf).is_none());
    assert_eq!(buf.len(), 12);
}

#[test]
fn create_response_header_carries_magic_and_version() {
    let header = create_response_header(Status::Okay, 3, 9);
    assert_eq!(header.magic, 0x5244);
    assert_eq!(header.version, 1);
    assert_eq!(header.status, Status::Okay);
    assert_eq!(header.req_id, 3);
    assert_eq!(header.payload_len, 9);
}
