use arsync::message::{daemon_reply, decode, encode, frame_length, handshake_accepted, Buffer, Message};

#[test]
fn encode_words() {
    assert_eq!(encode(Message::Init), b"init".to_vec());
    assert_eq!(encode(Message::Terminate), b"terminate".to_vec());
    assert_eq!(encode(Message::Invalid), b"message no in correct format".to_vec());
}

#[test]
fn decode_frames() {
    assert_eq!(decode(&Vec::new()), Buffer::End);
    assert_eq!(decode(&b"init".to_vec()), Buffer::Message(Message::Init));
    assert_eq!(decode(&b"terminate".to_vec()), Buffer::Message(Message::Terminate));
    assert_eq!(decode(&b"inix".to_vec()), Buffer::Invalid);
    assert_eq!(decode(&b"initial".to_vec()), Buffer::Invalid);
    assert_eq!(decode(&encode(Message::Invalid)), Buffer::Invalid);
}

#[test]
fn header_is_big_endian() {
    assert_eq!(frame_length([0, 0, 0, 4]), 4);
    assert_eq!(frame_length([0, 0, 1, 0]), 256);
    assert_eq!(frame_length([1, 2, 3, 4]), 0x01020304);
    assert_eq!(frame_length([255, 255, 255, 255]), u32::MAX);
}

#[test]
fn handshake_answers() {
    assert!(handshake_accepted(Buffer::Message(Message::Terminate)));
    assert!(!handshake_accepted(Buffer::Message(Message::Init)));
    assert!(!handshake_accepted(Buffer::End));
    assert!(!handshake_accepted(Buffer::Invalid));
}

#[test]
fn daemon_answers() {
    assert_eq!(daemon_reply(Buffer::End), (None, true));
    assert_eq!(daemon_reply(Buffer::Message(Message::Init)), (Some(Message::Terminate), true));
    assert_eq!(daemon_reply(Buffer::Message(Message::Terminate)), (Some(Message::Invalid), false));
    assert_eq!(daemon_reply(Buffer::Invalid), (Some(Message::Invalid), false));
}
