use drone_sim::network::{
    generate_keypair, Envelope, Message, MsgType, NoiseError, NoiseSessionTable, HANDSHAKE_TAG,
    TRANSPORT_TAG,
};

fn table() -> NoiseSessionTable {
    let (private, public) = generate_keypair().unwrap();
    assert_eq!(private.len(), 32);
    assert_eq!(public.len(), 32);
    assert_ne!(private, public);
    NoiseSessionTable::new(private)
}

/// Runs the three-message handshake between drone 2, the initiator, and drone 1.
fn connected() -> (NoiseSessionTable, NoiseSessionTable) {
    let mut high = table();
    let mut low = table();
    let msg1 = high.initiate_handshake(1).unwrap();
    assert_eq!(msg1.len(), 32);
    let msg2 = low.process_handshake_msg(2, &msg1).unwrap().unwrap();
    assert_eq!(msg2.len(), 96);
    assert!(!high.has_session(1));
    assert!(!low.has_session(2));
    let msg3 = high.process_handshake_msg(1, &msg2).unwrap().unwrap();
    assert_eq!(msg3.len(), 64);
    assert!(low.process_handshake_msg(2, &msg3).unwrap().is_none());
    (high, low)
}

#[test]
fn both_sides_have_a_session_after_three_messages() {
    let (high, low) = connected();
    assert!(high.has_session(1));
    assert!(low.has_session(2));
    assert!(!high.has_session(2));
    assert!(!low.has_session(1));
}

#[test]
fn decrypt_gives_back_what_was_encrypted() {
    let (mut high, mut low) = connected();
    for text in [&b"map diff"[..], &b""[..], &[7u8; 1000][..]] {
        let c = high.encrypt(1, text).unwrap();
        assert_eq!(c.len(), text.len() + 16);
        assert_ne!(&c[..text.len()], text_or_marker(text));
        assert_eq!(low.decrypt(2, &c).unwrap(), text);
        let d = low.encrypt(2, text).unwrap();
        assert_eq!(high.decrypt(1, &d).unwrap(), text);
    }
}

fn text_or_marker(text: &[u8]) -> &[u8] {
    if text.is_empty() {
        b"!"
    } else {
        text
    }
}

#[test]
fn tampered_ciphertext_is_refused_and_the_session_goes_on() {
    let (mut high, mut low) = connected();
    let c = high.encrypt(1, b"hello").unwrap();
    let mut bad = c.clone();
    bad[0] ^= 1;
    assert_eq!(low.decrypt(2, &bad), Err(NoiseError::Decrypt));
    assert_eq!(low.decrypt(2, &[0u8; 15]), Err(NoiseError::Decrypt));
    assert_eq!(low.decrypt(2, &vec![0u8; 65536]), Err(NoiseError::Decrypt));
    assert_eq!(low.decrypt(2, &c).unwrap(), b"hello");
    // The same message again carries an old number.
    assert_eq!(low.decrypt(2, &c), Err(NoiseError::Decrypt));
}

#[test]
fn payloads_up_to_the_noise_limit_are_encrypted() {
    let (mut high, mut low) = connected();
    let longest = vec![1u8; 65535 - 16];
    let c = high.encrypt(1, &longest).unwrap();
    assert_eq!(c.len(), 65535);
    assert_eq!(low.decrypt(2, &c).unwrap(), longest);
    assert_eq!(high.encrypt(1, &vec![1u8; 65520]), Err(NoiseError::Encrypt));
}

#[test]
fn without_a_session_nothing_is_encrypted() {
    let mut t = table();
    assert_eq!(t.encrypt(5, b"x"), Err(NoiseError::NoSession(5)));
    assert_eq!(t.decrypt(5, b"x"), Err(NoiseError::NoSession(5)));
}

#[test]
fn first_handshake_message_needs_a_key_and_little_payload() {
    let mut t = table();
    assert_eq!(t.process_handshake_msg(3, &[0u8; 31]), Err(NoiseError::Read));
    assert_eq!(t.process_handshake_msg(3, &[9u8; 289]), Err(NoiseError::Read));
    assert_eq!(t.process_handshake_msg(3, &[9u8; 288]).unwrap().unwrap().len(), 96);
    let mut u = table();
    assert_eq!(u.process_handshake_msg(3, &[9u8; 32]).unwrap().unwrap().len(), 96);
    assert!(!u.has_session(3));
}

#[test]
fn a_bad_handshake_message_leaves_the_handshake_in_progress() {
    let mut high = table();
    let mut low = table();
    let msg1 = high.initiate_handshake(1).unwrap();
    let msg2 = low.process_handshake_msg(2, &msg1).unwrap().unwrap();
    let mut bad = msg2.clone();
    bad[40] ^= 1;
    assert_eq!(high.process_handshake_msg(1, &bad), Err(NoiseError::Read));
    assert!(!high.has_session(1));
    let msg3 = high.process_handshake_msg(1, &msg2).unwrap().unwrap();
    assert!(high.has_session(1));
    let mut bad = msg3.clone();
    bad[3] ^= 1;
    assert_eq!(low.process_handshake_msg(2, &bad), Err(NoiseError::Read));
    assert!(low.process_handshake_msg(2, &msg3).unwrap().is_none());
    assert!(low.has_session(2));
}

#[test]
fn handshake_messages_from_a_connected_peer_are_ignored() {
    let (mut high, mut low) = connected();
    assert!(low.process_handshake_msg(2, &[9u8; 32]).unwrap().is_none());
    assert!(high.process_handshake_msg(1, b"junk").unwrap().is_none());
    let c = high.encrypt(1, b"still there").unwrap();
    assert_eq!(low.decrypt(2, &c).unwrap(), b"still there");
}

#[test]
fn short_keys_are_taken() {
    let mut a = NoiseSessionTable::new(vec![1, 2, 3]);
    assert_eq!(a.initiate_handshake(9).unwrap().len(), 32);
}

#[test]
fn envelope_bytes_are_exact() {
    let e = Envelope { tag: TRANSPORT_TAG, sender_id: 0x01020304, payload: vec![9, 8, 7] };
    let bytes = e.to_bytes().unwrap();
    assert_eq!(bytes, vec![2, 4, 3, 2, 1, 3, 0, 0, 0, 0, 0, 0, 0, 9, 8, 7]);
    let back = Envelope::from_bytes(&bytes).unwrap();
    assert_eq!((back.tag, back.sender_id, back.payload), (2, 0x01020304, vec![9, 8, 7]));
}

#[test]
fn envelope_parsing_ignores_what_follows_and_refuses_what_is_cut_off() {
    let e = Envelope { tag: HANDSHAKE_TAG, sender_id: 7, payload: vec![1, 2] };
    let mut bytes = e.to_bytes().unwrap();
    bytes.push(99);
    assert_eq!(Envelope::from_bytes(&bytes).unwrap().payload, vec![1, 2]);
    assert!(Envelope::from_bytes(&bytes[..14]).is_none());
    assert!(Envelope::from_bytes(&[]).is_none());
    let huge = [1, 0, 0, 0, 0, 255, 255, 255, 255, 255, 255, 255, 255, 1];
    assert!(Envelope::from_bytes(&huge).is_none());
}

fn message(path: Option<Vec<(u32, u32)>>) -> Message {
    Message {
        msg_type: MsgType::MapDiff,
        sender_id: 3,
        sender_pos: (1.5f32.to_bits(), (-2.0f32).to_bits()),
        path,
        peer_list: vec![1, 2],
        payload: vec![5],
        timestamp: 600,
    }
}

#[test]
fn message_bytes_are_exact() {
    let bytes = message(Some(vec![(1, 2)])).to_bytes().unwrap();
    let mut want: Vec<u8> = vec![2, 0, 0, 0, 3, 0, 0, 0];
    want.extend_from_slice(&1.5f32.to_le_bytes());
    want.extend_from_slice(&(-2.0f32).to_le_bytes());
    want.extend_from_slice(&[1, 1, 0, 0, 0, 0, 0, 0, 0, 1, 0, 0, 0, 2, 0, 0, 0]);
    want.extend_from_slice(&[2, 0, 0, 0, 0, 0, 0, 0, 1, 0, 0, 0, 2, 0, 0, 0]);
    want.extend_from_slice(&[1, 0, 0, 0, 0, 0, 0, 0, 5]);
    want.extend_from_slice(&600u64.to_le_bytes());
    assert_eq!(bytes, want);
}

#[test]
fn messages_read_back() {
    for path in [None, Some(vec![]), Some(vec![(1, 2), (3, 4)])] {
        let m = message(path.clone());
        let back = Message::from_bytes(&m.to_bytes().unwrap()).unwrap();
        assert_eq!(back.msg_type, MsgType::MapDiff);
        assert_eq!(back.sender_id, 3);
        assert_eq!(back.sender_pos, m.sender_pos);
        assert_eq!(back.path, path);
        assert_eq!(back.peer_list, vec![1, 2]);
        assert_eq!(back.payload, vec![5]);
        assert_eq!(back.timestamp, 600);
    }
}

#[test]
fn unknown_message_types_and_flags_are_refused() {
    let mut bytes = message(None).to_bytes().unwrap();
    bytes[0] = 3;
    assert!(Message::from_bytes(&bytes).is_none());
    bytes[0] = 1;
    assert_eq!(Message::from_bytes(&bytes).unwrap().msg_type, MsgType::Heartbeat);
    bytes[16] = 2;
    assert!(Message::from_bytes(&bytes).is_none());
    let bytes = message(None).to_bytes().unwrap();
    assert!(Message::from_bytes(&bytes[..bytes.len() - 1]).is_none());
}
