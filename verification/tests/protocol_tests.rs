use synroute::messages::{
    decode_message, encode_message, payload_len_for_tag, AttachError, DetachError, Message,
};

fn all_messages() -> Vec<Message> {
    vec![
        Message::AttachRequest { pid: 0, delay: 0 },
        Message::AttachRequest { pid: 4321, delay: 30000 },
        Message::AttachRequest { pid: u32::MAX, delay: u32::MAX },
        Message::AttachResponse { error: AttachError::Success },
        Message::AttachResponse { error: AttachError::ProcessNotFound },
        Message::DetachRequest { pid: 77 },
        Message::DetachResponse { error: DetachError::Success },
        Message::DetachResponse { error: DetachError::ProcessNotFound },
        Message::DetachResponse { error: DetachError::UnknownError },
        Message::PurgeRequest,
        Message::PurgeResponse,
    ]
}

#[test]
fn every_message_round_trips() {
    for m in all_messages() {
        let bytes = encode_message(&m);
        assert_eq!(decode_message(&bytes), Some(m));
    }
}

#[test]
fn encodings_are_all_distinct() {
    let encoded: Vec<Vec<u8>> = all_messages().iter().map(encode_message).collect();
    for i in 0..encoded.len() {
        for j in 0..encoded.len() {
            if i != j {
                assert_ne!(encoded[i], encoded[j]);
            }
        }
    }
}

#[test]
fn attach_request_wire_layout_is_little_endian() {
    let bytes = encode_message(&Message::AttachRequest { pid: 0x0102_0304, delay: 5 });
    assert_eq!(
        bytes,
        vec![0, 0, 0, 0, 0x04, 0x03, 0x02, 0x01, 5, 0, 0, 0]
    );
}

#[test]
fn wire_format_matches_bincode_defaults() {
    // The framing is bincode's default layout for such enums: a 32-bit
    // little-endian variant tag, then 32-bit little-endian fields.
    let pairs: Vec<(Message, Vec<u8>)> = vec![
        (
            Message::AttachRequest { pid: 4321, delay: 30000 },
            bincode::serialize(&(0u32, 4321u32, 30000u32)).unwrap(),
        ),
        (
            Message::AttachResponse { error: AttachError::Success },
            bincode::serialize(&(1u32, 0u32)).unwrap(),
        ),
        (
            Message::AttachResponse { error: AttachError::ProcessNotFound },
            bincode::serialize(&(1u32, 1u32)).unwrap(),
        ),
        (
            Message::DetachRequest { pid: 77 },
            bincode::serialize(&(2u32, 77u32)).unwrap(),
        ),
        (
            Message::DetachResponse { error: DetachError::UnknownError },
            bincode::serialize(&(3u32, 2u32)).unwrap(),
        ),
        (Message::PurgeRequest, bincode::serialize(&4u32).unwrap()),
        (Message::PurgeResponse, bincode::serialize(&5u32).unwrap()),
    ];
    for (m, expected) in pairs {
        assert_eq!(encode_message(&m), expected);
    }
}

#[test]
fn malformed_bytes_are_protocol_errors() {
    // Too short for a tag.
    assert_eq!(decode_message(&vec![]), None);
    assert_eq!(decode_message(&vec![0, 0, 0]), None);
    // Unknown tag.
    assert_eq!(decode_message(&vec![6, 0, 0, 0]), None);
    assert_eq!(decode_message(&vec![255, 255, 255, 255]), None);
    // Right tag, wrong length.
    assert_eq!(decode_message(&vec![0, 0, 0, 0]), None);
    assert_eq!(decode_message(&vec![4, 0, 0, 0, 0]), None);
    let mut long = encode_message(&Message::DetachRequest { pid: 1 });
    long.push(0);
    assert_eq!(decode_message(&long), None);
    // Unknown result code in a response.
    assert_eq!(decode_message(&vec![1, 0, 0, 0, 2, 0, 0, 0]), None);
    assert_eq!(decode_message(&vec![3, 0, 0, 0, 3, 0, 0, 0]), None);
}

#[test]
fn payload_lengths_frame_every_tag() {
    assert_eq!(payload_len_for_tag(0), Some(8));
    assert_eq!(payload_len_for_tag(1), Some(4));
    assert_eq!(payload_len_for_tag(2), Some(4));
    assert_eq!(payload_len_for_tag(3), Some(4));
    assert_eq!(payload_len_for_tag(4), Some(0));
    assert_eq!(payload_len_for_tag(5), Some(0));
    assert_eq!(payload_len_for_tag(6), None);
    for m in all_messages() {
        let bytes = encode_message(&m);
        let tag = u32::from_le_bytes([bytes[0], bytes[1], bytes[2], bytes[3]]);
        assert_eq!(payload_len_for_tag(tag), Some(bytes.len() - 4));
    }
}
