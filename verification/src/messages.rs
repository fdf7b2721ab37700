//! The client/daemon control protocol: one framed message per direction.
//!
//! A message is a 32-bit little-endian variant tag followed by its fields,
//! each a 32-bit little-endian value (nested result enums again as a 32-bit
//! tag). `decode_message` accepts exactly the byte strings that
//! `encode_message` produces; anything else is a protocol error.

use vstd::arithmetic::div_mod::{
    lemma_div_denominator, lemma_fundamental_div_mod, lemma_fundamental_div_mod_converse,
    lemma_multiply_divide_lt, lemma_small_mod,
};
use vstd::prelude::*;

verus! {

/// The daemon's answer to an attach request.
#[derive(Clone, Copy, PartialEq, Eq, Structural, Debug)]
pub enum AttachError {
    Success,
    ProcessNotFound,
}

/// The daemon's answer to a detach request.
#[derive(Clone, Copy, PartialEq, Eq, Structural, Debug)]
pub enum DetachError {
    Success,
    ProcessNotFound,
    UnknownError,
}

/// Every message the control protocol carries, either direction.
#[derive(Clone, Copy, PartialEq, Eq, Structural, Debug)]
#[allow(inconsistent_fields)]
pub enum Message {
    AttachRequest { pid: u32, delay: u32 },
    AttachResponse { error: AttachError },
    DetachRequest { pid: u32 },
    DetachResponse { error: DetachError },
    PurgeRequest,
    PurgeResponse,
}

/// The four little-endian bytes of a 32-bit value.
pub open spec fn le32(v: u32) -> Seq<u8> {
    seq![
        (v as int % 256) as u8,
        ((v as int / 256) % 256) as u8,
        ((v as int / 0x1_0000) % 256) as u8,
        ((v as int / 0x100_0000) % 256) as u8,
    ]
}

/// The value four little-endian bytes carry.
pub open spec fn u32_of_le(b0: u8, b1: u8, b2: u8, b3: u8) -> int {
    b0 + 256 * b1 + 0x1_0000 * b2 + 0x100_0000 * b3
}

/// The wire tag of each message variant.
pub open spec fn tag_of(m: Message) -> u32 {
    match m {
        Message::AttachRequest { .. } => 0,
        Message::AttachResponse { .. } => 1,
        Message::DetachRequest { .. } => 2,
        Message::DetachResponse { .. } => 3,
        Message::PurgeRequest => 4,
        Message::PurgeResponse => 5,
    }
}

/// The wire tag of an attach result.
pub open spec fn attach_error_code(e: AttachError) -> u32 {
    match e {
        AttachError::Success => 0,
        AttachError::ProcessNotFound => 1,
    }
}

/// The wire tag of a detach result.
pub open spec fn detach_error_code(e: DetachError) -> u32 {
    match e {
        DetachError::Success => 0,
        DetachError::ProcessNotFound => 1,
        DetachError::UnknownError => 2,
    }
}

/// The bytes of a message's fields, without its leading tag.
pub open spec fn payload_bytes(m: Message) -> Seq<u8> {
    match m {
        Message::AttachRequest { pid, delay } => le32(pid) + le32(delay),
        Message::AttachResponse { error } => le32(attach_error_code(error)),
        Message::DetachRequest { pid } => le32(pid),
        Message::DetachResponse { error } => le32(detach_error_code(error)),
        Message::PurgeRequest => Seq::empty(),
        Message::PurgeResponse => Seq::empty(),
    }
}

/// The whole encoding of a message: its tag, then its fields.
pub open spec fn msg_bytes(m: Message) -> Seq<u8> {
    le32(tag_of(m)) + payload_bytes(m)
}

/// What a byte string decodes to, if anything: the exact inverse of
/// `msg_bytes`, rejecting wrong lengths, unknown tags, and unknown result
/// codes.
pub open spec fn spec_decode(b: Seq<u8>) -> Option<Message> {
    if b.len() < 4 {
        None
    } else {
        let tag = u32_of_le(b[0], b[1], b[2], b[3]);
        if tag == 0 {
            if b.len() == 12 {
                Some(
                    Message::AttachRequest {
                        pid: u32_of_le(b[4], b[5], b[6], b[7]) as u32,
                        delay: u32_of_le(b[8], b[9], b[10], b[11]) as u32,
                    },
                )
            } else {
                None
            }
        } else if tag == 1 {
            if b.len() == 8 {
                let code = u32_of_le(b[4], b[5], b[6], b[7]);
                if code == 0 {
                    Some(Message::AttachResponse { error: AttachError::Success })
                } else if code == 1 {
                    Some(Message::AttachResponse { error: AttachError::ProcessNotFound })
                } else {
                    None
                }
            } else {
                None
            }
        } else if tag == 2 {
            if b.len() == 8 {
                Some(Message::DetachRequest { pid: u32_of_le(b[4], b[5], b[6], b[7]) as u32 })
            } else {
                None
            }
        } else if tag == 3 {
            if b.len() == 8 {
                let code = u32_of_le(b[4], b[5], b[6], b[7]);
                if code == 0 {
                    Some(Message::DetachResponse { error: DetachError::Success })
                } else if code == 1 {
                    Some(Message::DetachResponse { error: DetachError::ProcessNotFound })
                } else if code == 2 {
                    Some(Message::DetachResponse { error: DetachError::UnknownError })
                } else {
                    None
                }
            } else {
                None
            }
        } else if tag == 4 {
            if b.len() == 4 {
                Some(Message::PurgeRequest)
            } else {
                None
            }
        } else if tag == 5 {
            if b.len() == 4 {
                Some(Message::PurgeResponse)
            } else {
                None
            }
        } else {
            None
        }
    }
}

/// Four little-endian bytes carry back the value they were made from.
proof fn lemma_le32_sum_roundtrip(v: u32)
    ensures
        u32_of_le(le32(v)[0], le32(v)[1], le32(v)[2], le32(v)[3]) == v,
{
    let x = v as int;
    lemma_fundamental_div_mod(x, 256);
    lemma_fundamental_div_mod(x / 256, 256);
    lemma_div_denominator(x, 256, 256);
    lemma_fundamental_div_mod(x / 0x1_0000, 256);
    lemma_div_denominator(x, 0x1_0000, 256);
    lemma_multiply_divide_lt(x, 0x100_0000, 256);
    lemma_small_mod((x / 0x100_0000) as nat, 256);
}

/// The little-endian bytes of a sum of four bytes are those bytes.
proof fn lemma_le32_of_sum(b0: u8, b1: u8, b2: u8, b3: u8)
    ensures
        0 <= u32_of_le(b0, b1, b2, b3) < 0x1_0000_0000,
        le32(u32_of_le(b0, b1, b2, b3) as u32) == seq![b0, b1, b2, b3],
{
    let x = u32_of_le(b0, b1, b2, b3);
    lemma_fundamental_div_mod_converse(x, 256, b1 + 256 * b2 + 0x1_0000 * b3, b0 as int);
    lemma_fundamental_div_mod_converse(x / 256, 256, b2 + 256 * b3, b1 as int);
    lemma_div_denominator(x, 256, 256);
    lemma_fundamental_div_mod_converse(x / 0x1_0000, 256, b3 as int, b2 as int);
    lemma_div_denominator(x, 0x1_0000, 256);
    lemma_fundamental_div_mod_converse(x / 0x100_0000, 256, 0, b3 as int);
    assert(le32(x as u32) =~= seq![b0, b1, b2, b3]);
}

/// Decoding inverts encoding: every message's byte string decodes back to
/// that message, so each encoding names one message and no other.
pub proof fn lemma_decode_of_encode(m: Message)
    ensures
        spec_decode(msg_bytes(m)) == Some(m),
{
    let b = msg_bytes(m);
    assert(b[0] == le32(tag_of(m))[0] && b[1] == le32(tag_of(m))[1] && b[2] == le32(
        tag_of(m),
    )[2] && b[3] == le32(tag_of(m))[3]);
    lemma_le32_sum_roundtrip(tag_of(m));
    match m {
        Message::AttachRequest { pid, delay } => {
            assert(b.len() == 12);
            assert(b[4] == le32(pid)[0] && b[5] == le32(pid)[1] && b[6] == le32(pid)[2] && b[7]
                == le32(pid)[3]);
            assert(b[8] == le32(delay)[0] && b[9] == le32(delay)[1] && b[10] == le32(delay)[2]
                && b[11] == le32(delay)[3]);
            lemma_le32_sum_roundtrip(pid);
            lemma_le32_sum_roundtrip(delay);
        },
        Message::AttachResponse { error } => {
            assert(b.len() == 8);
            let code = attach_error_code(error);
            assert(b[4] == le32(code)[0] && b[5] == le32(code)[1] && b[6] == le32(code)[2] && b[7]
                == le32(code)[3]);
            lemma_le32_sum_roundtrip(code);
        },
        Message::DetachRequest { pid } => {
            assert(b.len() == 8);
            assert(b[4] == le32(pid)[0] && b[5] == le32(pid)[1] && b[6] == le32(pid)[2] && b[7]
                == le32(pid)[3]);
            lemma_le32_sum_roundtrip(pid);
        },
        Message::DetachResponse { error } => {
            assert(b.len() == 8);
            let code = detach_error_code(error);
            assert(b[4] == le32(code)[0] && b[5] == le32(code)[1] && b[6] == le32(code)[2] && b[7]
                == le32(code)[3]);
            lemma_le32_sum_roundtrip(code);
        },
        Message::PurgeRequest => {
            assert(b.len() == 4);
        },
        Message::PurgeResponse => {
            assert(b.len() == 4);
        },
    }
}

/// Decoding is sound: a byte string that decodes is exactly the encoding of
/// what it decodes to.
pub proof fn lemma_decode_sound(b: Seq<u8>, m: Message)
    requires
        spec_decode(b) == Some(m),
    ensures
        msg_bytes(m) == b,
{
    lemma_le32_of_sum(b[0], b[1], b[2], b[3]);
    let tag = u32_of_le(b[0], b[1], b[2], b[3]);
    assert(le32(tag as u32) == seq![b[0], b[1], b[2], b[3]]);
    if b.len() >= 8 {
        lemma_le32_of_sum(b[4], b[5], b[6], b[7]);
    }
    if b.len() == 12 {
        lemma_le32_of_sum(b[8], b[9], b[10], b[11]);
    }
    assert(msg_bytes(m) =~= b);
}

/// The protocol round trip: two messages with the same encoding are the same
/// message.
pub proof fn lemma_msg_bytes_injective(m1: Message, m2: Message)
    requires
        msg_bytes(m1) == msg_bytes(m2),
    ensures
        m1 == m2,
{
    lemma_decode_of_encode(m1);
    lemma_decode_of_encode(m2);
}

fn push_le32(out: &mut Vec<u8>, v: u32)
    ensures
        final(out)@ == old(out)@ + le32(v),
{
    out.push((v % 256) as u8);
    out.push(((v / 256) % 256) as u8);
    out.push(((v / 0x1_0000) % 256) as u8);
    out.push(((v / 0x100_0000) % 256) as u8);
    assert(out@ =~= old(out)@ + le32(v));
}

/// Encode one message for the wire.
pub fn encode_message(m: &Message) -> (r: Vec<u8>)
    ensures
        r@ == msg_bytes(*m),
{
    let mut out: Vec<u8> = Vec::new();
    match m {
        Message::AttachRequest { pid, delay } => {
            push_le32(&mut out, 0);
            push_le32(&mut out, *pid);
            push_le32(&mut out, *delay);
        },
        Message::AttachResponse { error } => {
            push_le32(&mut out, 1);
            let code: u32 = match error {
                AttachError::Success => 0,
                AttachError::ProcessNotFound => 1,
            };
            push_le32(&mut out, code);
        },
        Message::DetachRequest { pid } => {
            push_le32(&mut out, 2);
            push_le32(&mut out, *pid);
        },
        Message::DetachResponse { error } => {
            push_le32(&mut out, 3);
            let code: u32 = match error {
                DetachError::Success => 0,
                DetachError::ProcessNotFound => 1,
                DetachError::UnknownError => 2,
            };
            push_le32(&mut out, code);
        },
        Message::PurgeRequest => {
            push_le32(&mut out, 4);
        },
        Message::PurgeResponse => {
            push_le32(&mut out, 5);
        },
    }
    assert(out@ =~= msg_bytes(*m));
    out
}

fn read_le32(bytes: &Vec<u8>, off: usize) -> (v: u32)
    requires
        off + 4 <= bytes@.len(),
    ensures
        v == u32_of_le(
            bytes@[off as int],
            bytes@[off as int + 1],
            bytes@[off as int + 2],
            bytes@[off as int + 3],
        ),
{
    let n = bytes.len();
    assert(off + 3 < n);
    bytes[off] as u32 + bytes[off + 1] as u32 * 256 + bytes[off + 2] as u32 * 0x1_0000 + bytes[off
        + 3] as u32 * 0x100_0000
}

/// Decode one message from the wire: exactly the encodings of the six
/// message kinds are accepted, and each decodes to the message that encodes
/// to these bytes; everything else is a protocol error.
pub fn decode_message(bytes: &Vec<u8>) -> (r: Option<Message>)
    ensures
        r == spec_decode(bytes@),
        match r {
            Some(m) => msg_bytes(m) == bytes@,
            None => forall|m: Message| msg_bytes(m) != bytes@,
        },
{
    proof {
        if spec_decode(bytes@) is Some {
            lemma_decode_sound(bytes@, spec_decode(bytes@).unwrap());
        } else {
            assert forall|m: Message| msg_bytes(m) != bytes@ by {
                lemma_decode_of_encode(m);
            }
        }
    }
    let n = bytes.len();
    if n < 4 {
        return None;
    }
    let tag = read_le32(bytes, 0);
    if tag == 0 {
        if n == 12 {
            let pid = read_le32(bytes, 4);
            let delay = read_le32(bytes, 8);
            Some(Message::AttachRequest { pid, delay })
        } else {
            None
        }
    } else if tag == 1 {
        if n == 8 {
            let code = read_le32(bytes, 4);
            if code == 0 {
                Some(Message::AttachResponse { error: AttachError::Success })
            } else if code == 1 {
                Some(Message::AttachResponse { error: AttachError::ProcessNotFound })
            } else {
                None
            }
        } else {
            None
        }
    } else if tag == 2 {
        if n == 8 {
            let pid = read_le32(bytes, 4);
            Some(Message::DetachRequest { pid })
        } else {
            None
        }
    } else if tag == 3 {
        if n == 8 {
            let code = read_le32(bytes, 4);
            if code == 0 {
                Some(Message::DetachResponse { error: DetachError::Success })
            } else if code == 1 {
                Some(Message::DetachResponse { error: DetachError::ProcessNotFound })
            } else if code == 2 {
                Some(Message::DetachResponse { error: DetachError::UnknownError })
            } else {
                None
            }
        } else {
            None
        }
    } else if tag == 4 {
        if n == 4 {
            Some(Message::PurgeRequest)
        } else {
            None
        }
    } else if tag == 5 {
        if n == 4 {
            Some(Message::PurgeResponse)
        } else {
            None
        }
    } else {
        None
    }
}

/// How many payload bytes follow a leading tag, for framing a read from a
/// byte stream; `None` for a tag the protocol does not know.
pub open spec fn spec_payload_len(tag: u32) -> Option<usize> {
    if tag == 0 {
        Some(8usize)
    } else if tag == 1 || tag == 2 || tag == 3 {
        Some(4usize)
    } else if tag == 4 || tag == 5 {
        Some(0usize)
    } else {
        None
    }
}

/// Payload length per tag, computable at run time.
pub fn payload_len_for_tag(tag: u32) -> (r: Option<usize>)
    ensures
        r == spec_payload_len(tag),
{
    if tag == 0 {
        Some(8)
    } else if tag == 1 || tag == 2 || tag == 3 {
        Some(4)
    } else if tag == 4 || tag == 5 {
        Some(0)
    } else {
        None
    }
}

/// Every message is its tag plus the payload length that tag announces.
pub proof fn lemma_msg_len(m: Message)
    ensures
        msg_bytes(m).len() == 4 + spec_payload_len(tag_of(m)).unwrap(),
        spec_payload_len(tag_of(m)) is Some,
{
}

} // verus!
