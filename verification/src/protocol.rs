//! The framed wire protocol: a 12-byte header followed by an opcode-specific
//! payload. Request headers and request payload length fields are big-endian;
//! response headers and response payload length fields are little-endian.
//! The decoder is an incremental state machine that consumes a byte buffer
//! and yields at most one command per call; the encoder is a pure function
//! from a response to its wire bytes.

use vstd::prelude::*;

verus! {

/// The two-byte literal that opens every frame ("RD").
pub const MAGIC: u16 = 0x5244;
/// The protocol version carried in every header.
pub const VERSION: u8 = 1;
/// The fixed size of a frame header in bytes.
pub const HEADER_LEN: usize = 12;
/// The hard cap on any single frame payload.
pub const MAX_FRAME: usize = 1024 * 1024;

#[derive(Clone, Copy, Debug, PartialEq, Eq, Structural)]
pub enum OpCode {
    Get,
    Put,
    Del,
}

#[derive(Clone, Copy, Debug, PartialEq, Eq, Structural)]
pub enum Status {
    Okay,
    NotFound,
    Error,
}

/// The byte that stands for an opcode on the wire.
pub open spec fn opcode_code(op: OpCode) -> u8 {
    match op {
        OpCode::Get => 1,
        OpCode::Put => 2,
        OpCode::Del => 3,
    }
}

/// The opcode named by a wire byte; meaningful only for bytes 1 to 3.
pub open spec fn opcode_of_byte(b: u8) -> OpCode {
    if b == 1 {
        OpCode::Get
    } else if b == 2 {
        OpCode::Put
    } else {
        OpCode::Del
    }
}

/// The byte that stands for a status on the wire.
pub open spec fn status_code(s: Status) -> u8 {
    match s {
        Status::Okay => 0,
        Status::NotFound => 1,
        Status::Error => 2,
    }
}

#[derive(Clone, Copy, Debug, PartialEq, Eq, Structural)]
pub struct RequestFrameHeader {
    pub opcode: OpCode,
    pub req_id: u32,
    pub payload_len: u32,
}

#[derive(Clone, Copy, Debug, PartialEq, Eq, Structural)]
pub struct ResponseFrameHeader {
    pub magic: u16,
    pub version: u8,
    pub status: Status,
    pub req_id: u32,
    pub payload_len: u32,
}

/// A parsed request, with its key and value as owned byte vectors.
#[derive(Debug)]
pub enum Command {
    Get { req_id: u32, key: Vec<u8> },
    Put { req_id: u32, key: Vec<u8>, value: Vec<u8> },
    Delete { req_id: u32, key: Vec<u8> },
}

/// A reply to one request, echoing its request id.
#[derive(Debug)]
pub enum Response {
    Okay { req_id: u32, value: Option<Vec<u8>> },
    NotFound { req_id: u32 },
    Error { req_id: u32, message: Vec<u8> },
}

/// The mathematical shape of a command: byte vectors become sequences.
pub enum CommandModel {
    Get { req_id: u32, key: Seq<u8> },
    Put { req_id: u32, key: Seq<u8>, value: Seq<u8> },
    Delete { req_id: u32, key: Seq<u8> },
}

/// The mathematical shape of a response.
pub enum ResponseModel {
    Okay { req_id: u32, value: Option<Seq<u8>> },
    NotFound { req_id: u32 },
    Error { req_id: u32, message: Seq<u8> },
}

impl View for Command {
    type V = CommandModel;

    open spec fn view(&self) -> CommandModel {
        match self {
            Command::Get { req_id, key } => CommandModel::Get { req_id: *req_id, key: key@ },
            Command::Put { req_id, key, value } => CommandModel::Put {
                req_id: *req_id,
                key: key@,
                value: value@,
            },
            Command::Delete { req_id, key } => CommandModel::Delete {
                req_id: *req_id,
                key: key@,
            },
        }
    }
}

impl View for Response {
    type V = ResponseModel;

    open spec fn view(&self) -> ResponseModel {
        match self {
            Response::Okay { req_id, value: Some(v) } => ResponseModel::Okay {
                req_id: *req_id,
                value: Some(v@),
            },
            Response::Okay { req_id, value: None } => ResponseModel::Okay {
                req_id: *req_id,
                value: None,
            },
            Response::NotFound { req_id } => ResponseModel::NotFound { req_id: *req_id },
            Response::Error { req_id, message } => ResponseModel::Error {
                req_id: *req_id,
                message: message@,
            },
        }
    }
}

/// The value of two big-endian bytes.
pub open spec fn be16(b0: u8, b1: u8) -> u16 {
    (b0 * 256 + b1) as u16
}

/// The value of four big-endian bytes.
pub open spec fn be32(b0: u8, b1: u8, b2: u8, b3: u8) -> u32 {
    (((b0 * 256 + b1) * 256 + b2) * 256 + b3) as u32
}

/// The value of two little-endian bytes.
pub open spec fn le16(b0: u8, b1: u8) -> u16 {
    (b1 * 256 + b0) as u16
}

/// The value of four little-endian bytes.
pub open spec fn le32(b0: u8, b1: u8, b2: u8, b3: u8) -> u32 {
    (((b3 * 256 + b2) * 256 + b1) * 256 + b0) as u32
}

/// The big-endian bytes of a 16-bit value.
pub open spec fn be16_bytes(v: u16) -> Seq<u8> {
    seq![(v / 256) as u8, (v % 256) as u8]
}

/// The big-endian bytes of a 32-bit value.
pub open spec fn be32_bytes(v: u32) -> Seq<u8> {
    seq![
        (v / 16777216) as u8,
        ((v / 65536) % 256) as u8,
        ((v / 256) % 256) as u8,
        (v % 256) as u8,
    ]
}

/// The little-endian bytes of a 16-bit value.
pub open spec fn le16_bytes(v: u16) -> Seq<u8> {
    seq![(v % 256) as u8, (v / 256) as u8]
}

/// The little-endian bytes of a 32-bit value.
pub open spec fn le32_bytes(v: u32) -> Seq<u8> {
    seq![
        (v % 256) as u8,
        ((v / 256) % 256) as u8,
        ((v / 65536) % 256) as u8,
        (v / 16777216) as u8,
    ]
}

pub(crate) fn read_u16_be(b: &Vec<u8>, i: usize) -> (r: u16)
    requires
        i + 2 <= b.len(),
    ensures
        r == be16(b@[i as int], b@[i as int + 1]),
{
    (b[i] as u16) * 256 + (b[i + 1] as u16)
}

pub(crate) fn read_u32_be(b: &Vec<u8>, i: usize) -> (r: u32)
    requires
        i + 4 <= b.len(),
    ensures
        r == be32(b@[i as int], b@[i as int + 1], b@[i as int + 2], b@[i as int + 3]),
{
    (((b[i] as u32) * 256 + (b[i + 1] as u32)) * 256 + (b[i + 2] as u32)) * 256 + (b[i + 3] as u32)
}

/// Removes the first `n` bytes of `buf`, keeping the rest in order.
pub(crate) fn drain_front(buf: &mut Vec<u8>, n: usize)
    requires
        n <= old(buf)@.len(),
    ensures
        final(buf)@ == old(buf)@.skip(n as int),
{
    let mut tail = buf.split_off(n);
    core::mem::swap(buf, &mut tail);
    proof {
        assert(buf@ =~= old(buf)@.skip(n as int));
    }
}

/// Removes and returns the first `n` bytes of `buf`.
pub(crate) fn take_front(buf: &mut Vec<u8>, n: usize) -> (head: Vec<u8>)
    requires
        n <= old(buf)@.len(),
    ensures
        head@ == old(buf)@.take(n as int),
        final(buf)@ == old(buf)@.skip(n as int),
{
    let mut tail = buf.split_off(n);
    core::mem::swap(buf, &mut tail);
    proof {
        assert(buf@ =~= old(buf)@.skip(n as int));
        assert(tail@ =~= old(buf)@.take(n as int));
    }
    tail
}

/// A 12-byte request header is well formed when the magic, version and
/// opcode bytes are the expected ones and the payload length is at most
/// `MAX_FRAME`.
pub open spec fn header_ok(b: Seq<u8>) -> bool {
    &&& be16(b[0], b[1]) == MAGIC
    &&& b[2] == VERSION
    &&& 1 <= b[3] <= 3
    &&& be32(b[8], b[9], b[10], b[11]) <= MAX_FRAME as u32
}

/// The header carried by the first 12 bytes of `b` (meaningful when
/// `header_ok(b)` holds).
pub open spec fn header_of(b: Seq<u8>) -> RequestFrameHeader {
    RequestFrameHeader {
        opcode: opcode_of_byte(b[3]),
        req_id: be32(b[4], b[5], b[6], b[7]),
        payload_len: be32(b[8], b[9], b[10], b[11]),
    }
}

/// The command encoded by a complete payload `p` for the given opcode, or
/// `None` when the length fields inside `p` do not describe `p` exactly.
pub open spec fn payload_to_command(op: OpCode, req_id: u32, p: Seq<u8>) -> Option<CommandModel> {
    if p.len() < 2 {
        None
    } else {
        let klen = be16(p[0], p[1]) as int;
        match op {
            OpCode::Get => if p.len() == 2 + klen {
                Some(CommandModel::Get { req_id, key: p.subrange(2, 2 + klen) })
            } else {
                None
            },
            OpCode::Del => if p.len() == 2 + klen {
                Some(CommandModel::Delete { req_id, key: p.subrange(2, 2 + klen) })
            } else {
                None
            },
            OpCode::Put => if p.len() >= 2 + klen + 4 {
                let vlen = be32(p[2 + klen], p[3 + klen], p[4 + klen], p[5 + klen]) as int;
                if p.len() == 2 + klen + 4 + vlen {
                    Some(CommandModel::Put {
                        req_id,
                        key: p.subrange(2, 2 + klen),
                        value: p.subrange(2 + klen + 4, p.len() as int),
                    })
                } else {
                    None
                }
            } else {
                None
            },
        }
    }
}

/// The decoder's position in the byte stream: waiting for a header, waiting
/// for the payload of a parsed header, or stopped after a malformed frame.
#[derive(Clone, Copy, Debug)]
pub enum ParseState {
    Header,
    Payload(RequestFrameHeader),
    Failed,
}

/// One call of the decoder on state `s` and buffered bytes `buf`: the state,
/// the bytes left in the buffer, and the command yielded, if any. A malformed
/// header or payload moves the decoder to `Failed`, where it stays.
pub open spec fn drive(s: ParseState, buf: Seq<u8>) -> (ParseState, Seq<u8>, Option<CommandModel>)
    decreases buf.len(),
{
    match s {
        ParseState::Failed => (s, buf, None::<CommandModel>),
        ParseState::Header => {
            if buf.len() < 12 {
                (s, buf, None)
            } else if !header_ok(buf) {
                (ParseState::Failed, buf, None)
            } else {
                drive(ParseState::Payload(header_of(buf)), buf.skip(12))
            }
        },
        ParseState::Payload(h) => {
            if buf.len() < h.payload_len as int {
                (s, buf, None)
            } else {
                match payload_to_command(h.opcode, h.req_id, buf.take(h.payload_len as int)) {
                    Some(c) => (ParseState::Header, buf.skip(h.payload_len as int), Some(c)),
                    None => (ParseState::Failed, buf.skip(h.payload_len as int), None),
                }
            }
        },
    }
}

/// Consumes a request header from the front of `frame`: with fewer than 12
/// bytes buffered, or a malformed header, nothing is consumed and `None` is
/// returned; otherwise the 12 header bytes are consumed and the header
/// returned. A header is malformed when its magic, version or opcode byte is
/// wrong or its payload length exceeds `MAX_FRAME`.
pub fn parse_req_header(frame: &mut Vec<u8>) -> (r: Option<RequestFrameHeader>)
    ensures
        old(frame).len() < 12 ==> r is None && final(frame)@ == old(frame)@,
        old(frame).len() >= 12 && !header_ok(old(frame)@) ==> r is None && final(frame)@ == old(
            frame,
        )@,
        old(frame).len() >= 12 && header_ok(old(frame)@) ==> r == Some(header_of(old(frame)@))
            && final(frame)@ == old(frame)@.skip(12),
{
    if frame.len() < HEADER_LEN {
        return None;
    }
    let magic = read_u16_be(frame, 0);
    if magic != MAGIC {
        return None;
    }
    if frame[2] != VERSION {
        return None;
    }
    let opb = frame[3];
    if opb < 1 || opb > 3 {
        return None;
    }
    let payload_len = read_u32_be(frame, 8);
    if payload_len > MAX_FRAME as u32 {
        return None;
    }
    let req_id = read_u32_be(frame, 4);
    let opcode = if opb == 1 {
        OpCode::Get
    } else if opb == 2 {
        OpCode::Put
    } else {
        OpCode::Del
    };
    drain_front(frame, HEADER_LEN);
    Some(RequestFrameHeader { opcode, req_id, payload_len })
}

fn parse_get_command(p: Vec<u8>, header: &RequestFrameHeader) -> (r: Option<Command>)
    ensures
        (match r {
            Some(c) => payload_to_command(OpCode::Get, header.req_id, p@) == Some(c@),
            None => payload_to_command(OpCode::Get, header.req_id, p@) is None,
        }),
{
    let mut p = p;
    if p.len() < 2 {
        return None;
    }
    let key_len = read_u16_be(&p, 0) as usize;
    if p.len() != 2 + key_len {
        return None;
    }
    drain_front(&mut p, 2);
    Some(Command::Get { req_id: header.req_id, key: p })
}

fn parse_del_command(p: Vec<u8>, header: &RequestFrameHeader) -> (r: Option<Command>)
    ensures
        (match r {
            Some(c) => payload_to_command(OpCode::Del, header.req_id, p@) == Some(c@),
            None => payload_to_command(OpCode::Del, header.req_id, p@) is None,
        }),
{
    let mut p = p;
    if p.len() < 2 {
        return None;
    }
    let key_len = read_u16_be(&p, 0) as usize;
    if p.len() != 2 + key_len {
        return None;
    }
    drain_front(&mut p, 2);
    Some(Command::Delete { req_id: header.req_id, key: p })
}

fn parse_set_command(p: Vec<u8>, header: &RequestFrameHeader) -> (r: Option<Command>)
    ensures
        (match r {
            Some(c) => payload_to_command(OpCode::Put, header.req_id, p@) == Some(c@),
            None => payload_to_command(OpCode::Put, header.req_id, p@) is None,
        }),
{
    let mut p = p;
    let ghost p0 = p@;
    if p.len() < 2 {
        return None;
    }
    let key_len = read_u16_be(&p, 0) as usize;
    if p.len() < 2 + key_len + 4 {
        return None;
    }
    let val_len = read_u32_be(&p, 2 + key_len) as usize;
    if p.len() - (2 + key_len + 4) != val_len {
        return None;
    }
    drain_front(&mut p, 2);
    let key = take_front(&mut p, key_len);
    drain_front(&mut p, 4);
    proof {
        let klen = key_len as int;
        assert(key@ =~= p0.subrange(2, 2 + klen));
        assert(p@ =~= p0.subrange(2 + klen + 4, p0.len() as int));
    }
    Some(Command::Put { req_id: header.req_id, key, value: p })
}

/// The incremental frame decoder for one connection.
pub struct Frame {
    state: ParseState,
}

impl View for Frame {
    type V = ParseState;

    closed spec fn view(&self) -> ParseState {
        self.state
    }
}

impl Frame {
    pub fn new() -> (f: Frame)
        ensures
            f@ == ParseState::Header,
    {
        Frame { state: ParseState::Header }
    }

    /// True once the decoder has seen a malformed frame; the connection must
    /// then be closed, and no further command will ever be yielded.
    pub fn has_failed(&self) -> (r: bool)
        ensures
            r == (self@ is Failed),
    {
        matches!(self.state, ParseState::Failed)
    }

    /// Consumes at most one frame from `buf` and yields its command. With an
    /// incomplete frame buffered, nothing is consumed beyond the header and
    /// `None` is returned until more bytes arrive; a malformed frame moves
    /// the decoder to its failed state, from which every later call returns
    /// `None`.
    pub fn try_parse(&mut self, buf: &mut Vec<u8>) -> (r: Option<Command>)
        ensures
            ({
                let (s2, b2, c) = drive(old(self)@, old(buf)@);
                &&& final(self)@ == s2
                &&& final(buf)@ == b2
                &&& (match r {
                    Some(cmd) => c == Some(cmd@),
                    None => c is None,
                })
            }),
    {
        loop
            invariant
                drive(self.state, buf@) == drive(old(self)@, old(buf)@),
            decreases buf.len(),
        {
            match self.state {
                ParseState::Failed => {
                    return None;
                },
                ParseState::Header => {
                    if buf.len() < HEADER_LEN {
                        return None;
                    }
                    match parse_req_header(buf) {
                        Some(header) => {
                            self.state = ParseState::Payload(header);
                        },
                        None => {
                            self.state = ParseState::Failed;
                            return None;
                        },
                    }
                },
                ParseState::Payload(header) => {
                    if buf.len() < header.payload_len as usize {
                        return None;
                    }
                    let payload = take_front(buf, header.payload_len as usize);
                    let cmd = match header.opcode {
                        OpCode::Get => parse_get_command(payload, &header),
                        OpCode::Put => parse_set_command(payload, &header),
                        OpCode::Del => parse_del_command(payload, &header),
                    };
                    match cmd {
                        Some(c) => {
                            self.state = ParseState::Header;
                            return Some(c);
                        },
                        None => {
                            self.state = ParseState::Failed;
                            return None;
                        },
                    }
                },
            }
        }
    }
}

fn push_u16_le(buf: &mut Vec<u8>, v: u16)
    ensures
        final(buf)@ == old(buf)@ + le16_bytes(v),
{
    buf.push((v % 256) as u8);
    buf.push((v / 256) as u8);
    proof {
        assert(buf@ =~= old(buf)@ + le16_bytes(v));
    }
}

fn push_u32_le(buf: &mut Vec<u8>, v: u32)
    ensures
        final(buf)@ == old(buf)@ + le32_bytes(v),
{
    buf.push((v % 256) as u8);
    buf.push(((v / 256) % 256) as u8);
    buf.push(((v / 65536) % 256) as u8);
    buf.push((v / 16777216) as u8);
    proof {
        assert(buf@ =~= old(buf)@ + le32_bytes(v));
    }
}

fn push_u16_be(buf: &mut Vec<u8>, v: u16)
    ensures
        final(buf)@ == old(buf)@ + be16_bytes(v),
{
    buf.push((v / 256) as u8);
    buf.push((v % 256) as u8);
    proof {
        assert(buf@ =~= old(buf)@ + be16_bytes(v));
    }
}

fn push_u32_be(buf: &mut Vec<u8>, v: u32)
    ensures
        final(buf)@ == old(buf)@ + be32_bytes(v),
{
    buf.push((v / 16777216) as u8);
    buf.push(((v / 65536) % 256) as u8);
    buf.push(((v / 256) % 256) as u8);
    buf.push((v % 256) as u8);
    proof {
        assert(buf@ =~= old(buf)@ + be32_bytes(v));
    }
}

/// An exec mirror of `status_code`.
pub fn status_byte(s: Status) -> (b: u8)
    ensures
        b == status_code(s),
{
    match s {
        Status::Okay => 0,
        Status::NotFound => 1,
        Status::Error => 2,
    }
}

/// The status a response carries on the wire.
pub open spec fn response_status_of(r: ResponseModel) -> Status {
    match r {
        ResponseModel::Okay { .. } => Status::Okay,
        ResponseModel::NotFound { .. } => Status::NotFound,
        ResponseModel::Error { .. } => Status::Error,
    }
}

/// The request id a response echoes.
pub open spec fn response_req_id_of(r: ResponseModel) -> u32 {
    match r {
        ResponseModel::Okay { req_id, .. } => req_id,
        ResponseModel::NotFound { req_id } => req_id,
        ResponseModel::Error { req_id, .. } => req_id,
    }
}

/// The payload bytes of a response: a hit carries its value behind a
/// little-endian length, a miss carries nothing, an error carries its
/// message behind a little-endian length.
pub open spec fn response_payload_bytes(r: ResponseModel) -> Seq<u8> {
    match r {
        ResponseModel::Okay { value: Some(v), .. } => le32_bytes(v.len() as u32) + v,
        ResponseModel::Okay { value: None, .. } => Seq::<u8>::empty(),
        ResponseModel::NotFound { .. } => Seq::<u8>::empty(),
        ResponseModel::Error { message, .. } => le16_bytes(message.len() as u16) + message,
    }
}

/// A response fits the wire's length fields: a value and its length prefix
/// fit a 32-bit payload length, an error message length fits 16 bits.
pub open spec fn response_wf(r: ResponseModel) -> bool {
    match r {
        ResponseModel::Okay { value: Some(v), .. } => v.len() + 4 <= u32::MAX,
        ResponseModel::Okay { value: None, .. } => true,
        ResponseModel::NotFound { .. } => true,
        ResponseModel::Error { message, .. } => message.len() <= u16::MAX,
    }
}

/// The complete wire bytes of a response: 12-byte little-endian header, then
/// the payload.
pub open spec fn spec_encode_response(r: ResponseModel) -> Seq<u8> {
    le16_bytes(MAGIC) + seq![VERSION, status_code(response_status_of(r))] + le32_bytes(
        response_req_id_of(r),
    ) + le32_bytes(response_payload_bytes(r).len() as u32) + response_payload_bytes(r)
}

/// Whether `encode_response` accepts this response: its value or message
/// length fits the wire's length fields.
pub fn encodable(response: &Response) -> (b: bool)
    ensures
        b == response_wf(response@),
{
    match response {
        Response::Okay { value: Some(v), .. } => (v.len() as u64) <= u32::MAX as u64 - 4,
        Response::Okay { value: None, .. } => true,
        Response::NotFound { .. } => true,
        Response::Error { message, .. } => (message.len() as u64) <= u16::MAX as u64,
    }
}

/// Builds a response header carrying the protocol's magic and version.
pub fn create_response_header(status: Status, req_id: u32, payload_len: u32) -> (h:
    ResponseFrameHeader)
    ensures
        h == (ResponseFrameHeader { magic: MAGIC, version: VERSION, status, req_id, payload_len }),
{
    ResponseFrameHeader { magic: MAGIC, version: VERSION, status, req_id, payload_len }
}

/// Serializes a response into its wire bytes: the 12-byte little-endian
/// header followed by the payload for its status.
pub fn encode_response(response: Response) -> (out: Vec<u8>)
    requires
        response_wf(response@),
    ensures
        out@ == spec_encode_response(response@),
{
    let ghost rm = response@;
    let mut buf: Vec<u8> = Vec::new();
    match response {
        Response::Okay { req_id, value } => {
            let payload_len: u32 = match &value {
                Some(v) => 4 + v.len() as u32,
                None => 0,
            };
            let header = create_response_header(Status::Okay, req_id, payload_len);
            push_u16_le(&mut buf, header.magic);
            buf.push(header.version);
            buf.push(status_byte(header.status));
            push_u32_le(&mut buf, header.req_id);
            push_u32_le(&mut buf, header.payload_len);
            if let Some(mut v) = value {
                push_u32_le(&mut buf, v.len() as u32);
                buf.append(&mut v);
            }
            proof {
                assert(buf@ =~= spec_encode_response(rm));
            }
            buf
        },
        Response::NotFound { req_id } => {
            let header = create_response_header(Status::NotFound, req_id, 0);
            push_u16_le(&mut buf, header.magic);
            buf.push(header.version);
            buf.push(status_byte(header.status));
            push_u32_le(&mut buf, header.req_id);
            push_u32_le(&mut buf, header.payload_len);
            proof {
                assert(buf@ =~= spec_encode_response(rm));
            }
            buf
        },
        Response::Error { req_id, mut message } => {
            let msg_len = message.len() as u16;
            let payload_len: u32 = 2 + msg_len as u32;
            let header = create_response_header(Status::Error, req_id, payload_len);
            push_u16_le(&mut buf, header.magic);
            buf.push(header.version);
            buf.push(status_byte(header.status));
            push_u32_le(&mut buf, header.req_id);
            push_u32_le(&mut buf, header.payload_len);
            push_u16_le(&mut buf, msg_len);
            buf.append(&mut message);
            proof {
                assert(buf@ =~= spec_encode_response(rm));
            }
            buf
        },
    }
}

/// The opcode a command carries on the wire.
pub open spec fn command_opcode_of(c: CommandModel) -> OpCode {
    match c {
        CommandModel::Get { .. } => OpCode::Get,
        CommandModel::Put { .. } => OpCode::Put,
        CommandModel::Delete { .. } => OpCode::Del,
    }
}

/// The request id a command carries.
pub open spec fn command_req_id_of(c: CommandModel) -> u32 {
    match c {
        CommandModel::Get { req_id, .. } => req_id,
        CommandModel::Put { req_id, .. } => req_id,
        CommandModel::Delete { req_id, .. } => req_id,
    }
}

/// The payload bytes of a request: the key behind a big-endian length, and
/// for SET also the value behind a big-endian length.
pub open spec fn command_payload_bytes(c: CommandModel) -> Seq<u8> {
    match c {
        CommandModel::Get { key, .. } => be16_bytes(key.len() as u16) + key,
        CommandModel::Delete { key, .. } => be16_bytes(key.len() as u16) + key,
        CommandModel::Put { key, value, .. } => be16_bytes(key.len() as u16) + key + be32_bytes(
            value.len() as u32,
        ) + value,
    }
}

/// A command fits in one frame: its key length fits 16 bits and its whole
/// payload stays within `MAX_FRAME`.
pub open spec fn command_wf(c: CommandModel) -> bool {
    match c {
        CommandModel::Get { key, .. } => key.len() <= u16::MAX,
        CommandModel::Delete { key, .. } => key.len() <= u16::MAX,
        CommandModel::Put { key, value, .. } => key.len() <= u16::MAX && 2 + key.len() + 4
            + value.len() <= MAX_FRAME,
    }
}

/// The complete wire bytes of a request: 12-byte big-endian header, then the
/// payload.
pub open spec fn spec_encode_command(c: CommandModel) -> Seq<u8> {
    be16_bytes(MAGIC) + seq![VERSION, opcode_code(command_opcode_of(c))] + be32_bytes(
        command_req_id_of(c),
    ) + be32_bytes(command_payload_bytes(c).len() as u32) + command_payload_bytes(c)
}

/// Serializes a request into its wire bytes: the 12-byte big-endian header
/// followed by the opcode's payload.
pub fn encode_command(command: Command) -> (out: Vec<u8>)
    requires
        command_wf(command@),
    ensures
        out@ == spec_encode_command(command@),
{
    let ghost cm = command@;
    let mut buf: Vec<u8> = Vec::new();
    match command {
        Command::Get { req_id, mut key } => {
            let payload_len: u32 = 2 + key.len() as u32;
            push_u16_be(&mut buf, MAGIC);
            buf.push(VERSION);
            buf.push(1);
            push_u32_be(&mut buf, req_id);
            push_u32_be(&mut buf, payload_len);
            push_u16_be(&mut buf, key.len() as u16);
            buf.append(&mut key);
            proof {
                assert(buf@ =~= spec_encode_command(cm));
            }
            buf
        },
        Command::Delete { req_id, mut key } => {
            let payload_len: u32 = 2 + key.len() as u32;
            push_u16_be(&mut buf, MAGIC);
            buf.push(VERSION);
            buf.push(3);
            push_u32_be(&mut buf, req_id);
            push_u32_be(&mut buf, payload_len);
            push_u16_be(&mut buf, key.len() as u16);
            buf.append(&mut key);
            proof {
                assert(buf@ =~= spec_encode_command(cm));
            }
            buf
        },
        Command::Put { req_id, mut key, mut value } => {
            let payload_len: u32 = 2 + key.len() as u32 + 4 + value.len() as u32;
            push_u16_be(&mut buf, MAGIC);
            buf.push(VERSION);
            buf.push(2);
            push_u32_be(&mut buf, req_id);
            push_u32_be(&mut buf, payload_len);
            push_u16_be(&mut buf, key.len() as u16);
            buf.append(&mut key);
            push_u32_be(&mut buf, value.len() as u32);
            buf.append(&mut value);
            proof {
                assert(buf@ =~= spec_encode_command(cm));
            }
            buf
        },
    }
}

proof fn lemma_le16_round(v: u16)
    ensures
        le16((v % 256) as u8, (v / 256) as u8) == v,
{
    assert(((((v / 256) as u8) as u16) * 256 + (((v % 256) as u8) as u16)) == v) by (bit_vector);
}

proof fn lemma_le32_round(v: u32)
    ensures
        le32((v % 256) as u8, ((v / 256) % 256) as u8, ((v / 65536) % 256) as u8, (v / 16777216) as u8)
            == v,
{
    assert(((((((v / 16777216) as u8) as u32) * 256 + ((((v / 65536) % 256) as u8) as u32)) * 256 + ((((v
        / 256) % 256) as u8) as u32)) * 256 + (((v % 256) as u8) as u32)) == v) by (bit_vector);
}

proof fn lemma_be16_round(v: u16)
    ensures
        be16((v / 256) as u8, (v % 256) as u8) == v,
{
    assert(((((v / 256) as u8) as u16) * 256 + (((v % 256) as u8) as u16)) == v) by (bit_vector);
}

proof fn lemma_be32_round(v: u32)
    ensures
        be32((v / 16777216) as u8, ((v / 65536) % 256) as u8, ((v / 256) % 256) as u8, (v % 256) as u8)
            == v,
{
    assert(((((((v / 16777216) as u8) as u32) * 256 + ((((v / 65536) % 256) as u8) as u32)) * 256 + ((((v
        / 256) % 256) as u8) as u32)) * 256 + (((v % 256) as u8) as u32)) == v) by (bit_vector);
}

proof fn lemma_concat_parts<T>(a: Seq<T>, b: Seq<T>, n: int)
    requires
        0 <= n <= a.len(),
    ensures
        (a + b).take(n) == a.take(n),
        (a + b).skip(n) == a.skip(n) + b,
{
    assert((a + b).take(n) =~= a.take(n));
    assert((a + b).skip(n) =~= a.skip(n) + b);
}

/// The decoder's acceptance of responses, stated mathematically: the inverse
/// of `spec_encode_response` on byte strings that carry a well-formed
/// response frame.
pub open spec fn spec_decode_response(b: Seq<u8>) -> Option<ResponseModel> {
    if b.len() < 12 {
        None
    } else if !(le16(b[0], b[1]) == MAGIC && b[2] == VERSION && b[3] <= 2) {
        None
    } else {
        let req_id = le32(b[4], b[5], b[6], b[7]);
        let plen = le32(b[8], b[9], b[10], b[11]) as int;
        if b.len() != 12 + plen {
            None
        } else if b[3] == 0 {
            if plen == 0 {
                Some(ResponseModel::Okay { req_id, value: None })
            } else if plen >= 4 && le32(b[12], b[13], b[14], b[15]) as int == plen - 4 {
                Some(ResponseModel::Okay { req_id, value: Some(b.skip(16)) })
            } else {
                None
            }
        } else if b[3] == 1 {
            if plen == 0 {
                Some(ResponseModel::NotFound { req_id })
            } else {
                None
            }
        } else {
            if plen >= 2 && le16(b[12], b[13]) as int == plen - 2 {
                Some(ResponseModel::Error { req_id, message: b.skip(14) })
            } else {
                None
            }
        }
    }
}

/// Round trip for responses: decoding the encoding of any well-formed
/// response gives that response back.
pub proof fn lemma_response_round_trip(r: ResponseModel)
    requires
        response_wf(r),
    ensures
        spec_decode_response(spec_encode_response(r)) == Some(r),
{
    let b = spec_encode_response(r);
    let req_id = response_req_id_of(r);
    let p = response_payload_bytes(r);
    lemma_le16_round(MAGIC);
    lemma_le32_round(req_id);
    lemma_le32_round(p.len() as u32);
    assert(b.len() == 12 + p.len());
    match r {
        ResponseModel::Okay { value: Some(v), .. } => {
            lemma_le32_round(v.len() as u32);
            assert(b.skip(16) =~= v);
        },
        ResponseModel::Okay { value: None, .. } => {},
        ResponseModel::NotFound { .. } => {},
        ResponseModel::Error { message, .. } => {
            lemma_le16_round(message.len() as u16);
            assert(b.skip(14) =~= message);
        },
    }
}

/// Round trip for requests: a fresh decoder fed exactly the encoding of a
/// well-formed command consumes it whole and yields that command.
pub proof fn lemma_command_round_trip(c: CommandModel)
    requires
        command_wf(c),
    ensures
        drive(ParseState::Header, spec_encode_command(c)) == (
            ParseState::Header,
            Seq::<u8>::empty(),
            Some(c),
        ),
{
    let b = spec_encode_command(c);
    let p = command_payload_bytes(c);
    let req_id = command_req_id_of(c);
    lemma_be16_round(MAGIC);
    lemma_be32_round(req_id);
    lemma_be32_round(p.len() as u32);
    assert(b.len() == 12 + p.len());
    assert(header_ok(b));
    assert(header_of(b).req_id == req_id);
    assert(header_of(b).payload_len == p.len());
    assert(header_of(b).opcode == command_opcode_of(c));
    let rest = b.skip(12);
    assert(rest =~= p);
    assert(rest.take(p.len() as int) =~= p);
    assert(rest.skip(p.len() as int) =~= Seq::<u8>::empty());
    assert(drive(ParseState::Header, b) == drive(ParseState::Payload(header_of(b)), rest));
    match c {
        CommandModel::Get { key, .. } => {
            lemma_be16_round(key.len() as u16);
            assert(p[0] == be16_bytes(key.len() as u16)[0]);
            assert(p[1] == be16_bytes(key.len() as u16)[1]);
            assert(p.subrange(2, 2 + key.len() as int) =~= key);
        },
        CommandModel::Delete { key, .. } => {
            lemma_be16_round(key.len() as u16);
            assert(p[0] == be16_bytes(key.len() as u16)[0]);
            assert(p[1] == be16_bytes(key.len() as u16)[1]);
            assert(p.subrange(2, 2 + key.len() as int) =~= key);
        },
        CommandModel::Put { key, value, .. } => {
            lemma_be16_round(key.len() as u16);
            lemma_be32_round(value.len() as u32);
            let klen = key.len() as int;
            assert(p[0] == be16_bytes(key.len() as u16)[0]);
            assert(p[1] == be16_bytes(key.len() as u16)[1]);
            assert(p.subrange(2, 2 + klen) =~= key);
            assert(p[2 + klen] == be32_bytes(value.len() as u32)[0]);
            assert(p[3 + klen] == be32_bytes(value.len() as u32)[1]);
            assert(p[4 + klen] == be32_bytes(value.len() as u32)[2]);
            assert(p[5 + klen] == be32_bytes(value.len() as u32)[3]);
            assert(p.subrange(2 + klen + 4, p.len() as int) =~= value);
        },
    }
    assert(payload_to_command(command_opcode_of(c), req_id, p) == Some(c));
}

/// The decoder is insensitive to how the byte stream is chunked: decoding a
/// buffer extended by later bytes is the same as decoding the buffer alone,
/// then carrying the decoder's new state and leftover bytes into the
/// extension; when the buffer alone already yields a command, the extension
/// changes nothing but the leftover. Applied repeatedly, feeding a frame byte
/// by byte yields the same command as feeding it whole.
pub proof fn lemma_drive_split(s: ParseState, a: Seq<u8>, b: Seq<u8>)
    ensures
        ({
            let (s1, r1, c1) = drive(s, a);
            if c1 is Some {
                drive(s, a + b) == (s1, r1 + b, c1)
            } else {
                drive(s, a + b) == drive(s1, r1 + b)
            }
        }),
    decreases a.len(),
{
    match s {
        ParseState::Failed => {},
        ParseState::Header => {
            if a.len() < 12 {
            } else {
                assert(header_ok(a + b) == header_ok(a));
                if header_ok(a) {
                    assert(header_of(a + b) == header_of(a));
                    lemma_concat_parts(a, b, 12);
                    lemma_drive_split(ParseState::Payload(header_of(a)), a.skip(12), b);
                }
            }
        },
        ParseState::Payload(h) => {
            let plen = h.payload_len as int;
            if a.len() < plen {
            } else {
                lemma_concat_parts(a, b, plen);
                assert((a + b).take(plen) == a.take(plen));
            }
        },
    }
}

/// Any strict prefix of one encoded frame yields no command, and feeding the
/// rest afterwards yields exactly the frame's command: the two-chunk case of
/// incremental framing.
pub proof fn lemma_incremental_frame(c: CommandModel, i: int)
    requires
        command_wf(c),
        0 <= i < spec_encode_command(c).len(),
    ensures
        drive(ParseState::Header, spec_encode_command(c).take(i)).2 is None,
        ({
            let e = spec_encode_command(c);
            let (s1, r1, c1) = drive(ParseState::Header, e.take(i));
            drive(s1, r1 + e.skip(i)) == (ParseState::Header, Seq::<u8>::empty(), Some(c))
        }),
{
    let e = spec_encode_command(c);
    let p = command_payload_bytes(c);
    let a = e.take(i);
    lemma_command_round_trip(c);
    lemma_be16_round(MAGIC);
    lemma_be32_round(command_req_id_of(c));
    lemma_be32_round(p.len() as u32);
    if i < 12 {
        assert(drive(ParseState::Header, a).2 is None);
    } else {
        assert(e.len() == 12 + p.len());
        assert(header_ok(e));
        assert(header_ok(a) == header_ok(e));
        assert(header_of(a) == header_of(e));
        assert(a.skip(12).len() == i - 12);
        assert(header_of(e).payload_len == p.len());
        assert(drive(ParseState::Header, a) == drive(
            ParseState::Payload(header_of(a)),
            a.skip(12),
        ));
        assert(drive(ParseState::Payload(header_of(a)), a.skip(12)) == (
            ParseState::Payload(header_of(a)),
            a.skip(12),
            None::<CommandModel>,
        ));
    }
    lemma_drive_split(ParseState::Header, a, e.skip(i));
    assert(a + e.skip(i) =~= e);
}

/// A header announcing a payload larger than `MAX_FRAME` is fatal: the
/// decoder fails without yielding a command.
pub proof fn lemma_oversized_frame_rejected(buf: Seq<u8>)
    requires
        buf.len() >= 12,
        be32(buf[8], buf[9], buf[10], buf[11]) > MAX_FRAME as u32,
    ensures
        drive(ParseState::Header, buf) == (ParseState::Failed, buf, None::<CommandModel>),
{
}

} // verus!
