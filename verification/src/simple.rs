//! A minimal unframed request format, kept alongside the framed protocol:
//! SET is `[1][key_len:u16][val_len:u32][key][value]` and GET is
//! `[2][key_len:u16][key]`, all lengths big-endian. There is no header; an
//! unknown leading byte is a protocol violation that discards the buffer.

use vstd::prelude::*;
use crate::protocol::be16;
use crate::protocol::be32;
use crate::protocol::read_u16_be;
use crate::protocol::read_u32_be;
use crate::protocol::drain_front;
use crate::protocol::take_front;

verus! {

/// A parsed request of the unframed format.
#[derive(Debug)]
pub enum Command {
    Put(Vec<u8>, Vec<u8>),
    Get(Vec<u8>),
}

/// The mathematical shape of an unframed request.
pub enum CommandModel {
    Put(Seq<u8>, Seq<u8>),
    Get(Seq<u8>),
}

impl View for Command {
    type V = CommandModel;

    open spec fn view(&self) -> CommandModel {
        match self {
            Command::Put(key, value) => CommandModel::Put(key@, value@),
            Command::Get(key) => CommandModel::Get(key@),
        }
    }
}

/// What parsing a SET leaves: with too few bytes nothing is consumed;
/// otherwise the request is consumed and yielded.
pub open spec fn spec_parse_set(b: Seq<u8>) -> (Seq<u8>, Option<CommandModel>) {
    if b.len() < 7 {
        (b, None::<CommandModel>)
    } else {
        let klen = be16(b[1], b[2]) as int;
        let vlen = be32(b[3], b[4], b[5], b[6]) as int;
        if b.len() < 7 + klen + vlen {
            (b, None)
        } else {
            (
                b.skip(7 + klen + vlen),
                Some(
                    CommandModel::Put(
                        b.subrange(7, 7 + klen),
                        b.subrange(7 + klen, 7 + klen + vlen),
                    ),
                ),
            )
        }
    }
}

/// What parsing a GET leaves.
pub open spec fn spec_parse_get(b: Seq<u8>) -> (Seq<u8>, Option<CommandModel>) {
    if b.len() < 3 {
        (b, None::<CommandModel>)
    } else {
        let klen = be16(b[1], b[2]) as int;
        if b.len() < 3 + klen {
            (b, None)
        } else {
            (b.skip(3 + klen), Some(CommandModel::Get(b.subrange(3, 3 + klen))))
        }
    }
}

/// What one parsing step leaves: an empty buffer waits, a leading 1 or 2
/// dispatches on the opcode, and any other leading byte discards the buffer.
pub open spec fn spec_try_parse(b: Seq<u8>) -> (Seq<u8>, Option<CommandModel>) {
    if b.len() < 1 {
        (b, None::<CommandModel>)
    } else if b[0] == 1 {
        spec_parse_set(b)
    } else if b[0] == 2 {
        spec_parse_get(b)
    } else {
        (Seq::empty(), None)
    }
}

/// Parses one SET request from the front of `frame`; with an incomplete
/// request nothing is consumed and `None` is returned.
pub fn parse_set(frame: &mut Vec<u8>) -> (r: Option<Command>)
    ensures
        ({
            let (rest, c) = spec_parse_set(old(frame)@);
            &&& final(frame)@ == rest
            &&& (match r {
                Some(cmd) => c == Some(cmd@),
                None => c is None,
            })
        }),
{
    if frame.len() < 7 {
        return None;
    }
    let key_len = read_u16_be(frame, 1) as usize;
    let val_len = read_u32_be(frame, 3) as usize;
    if frame.len() < 7 + key_len {
        return None;
    }
    if frame.len() - (7 + key_len) < val_len {
        return None;
    }
    let ghost b0 = frame@;
    drain_front(frame, 7);
    let key = take_front(frame, key_len);
    let value = take_front(frame, val_len);
    proof {
        let klen = key_len as int;
        let vlen = val_len as int;
        assert(key@ =~= b0.subrange(7, 7 + klen));
        assert(value@ =~= b0.subrange(7 + klen, 7 + klen + vlen));
        assert(frame@ =~= b0.skip(7 + klen + vlen));
    }
    Some(Command::Put(key, value))
}

/// Parses one GET request from the front of `frame`; with an incomplete
/// request nothing is consumed and `None` is returned.
pub fn parse_get(frame: &mut Vec<u8>) -> (r: Option<Command>)
    ensures
        ({
            let (rest, c) = spec_parse_get(old(frame)@);
            &&& final(frame)@ == rest
            &&& (match r {
                Some(cmd) => c == Some(cmd@),
                None => c is None,
            })
        }),
{
    if frame.len() < 3 {
        return None;
    }
    let key_len = read_u16_be(frame, 1) as usize;
    if frame.len() < 3 + key_len {
        return None;
    }
    let ghost b0 = frame@;
    drain_front(frame, 3);
    let key = take_front(frame, key_len);
    proof {
        let klen = key_len as int;
        assert(key@ =~= b0.subrange(3, 3 + klen));
        assert(frame@ =~= b0.skip(3 + klen));
    }
    Some(Command::Get(key))
}

/// Parses one request from the front of `frame`: a leading 1 is a SET, a
/// leading 2 a GET, anything else a protocol violation that discards the
/// whole buffer; an empty or incomplete buffer yields `None` unchanged.
pub fn try_parse(frame: &mut Vec<u8>) -> (r: Option<Command>)
    ensures
        ({
            let (rest, c) = spec_try_parse(old(frame)@);
            &&& final(frame)@ == rest
            &&& (match r {
                Some(cmd) => c == Some(cmd@),
                None => c is None,
            })
        }),
{
    if frame.len() < 1 {
        return None;
    }
    let cmd = frame[0];
    match cmd {
        1 => parse_set(frame),
        2 => parse_get(frame),
        _ => {
            frame.clear();
            None
        },
    }
}

} // verus!
