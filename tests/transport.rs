use lnp_transport::connection::ConnectionError;
use lnp_transport::transport::{DirectionalKeys, Encryptor, MAX_PAYLOAD_LEN};

fn unhex(s: &str) -> Vec<u8> {
    (0..s.len() / 2)
        .map(|i| u8::from_str_radix(&s[2 * i..2 * i + 2], 16).unwrap())
        .collect()
}

const SEND_KEY: &str = "969ab31b4d288cedf6218839b27a3e2140827047f2c0f01bf5c04435d43511a9";
const RECV_KEY: &str = "bb9020b8965f4df047e07f955f3c4b88418984aadc5cdb35096b9ea8fa5c3442";
const CHAINING_KEY: &str = "919219dbb2920afa8db80f9a51787a840bcf111ed8d588caf9ab4be716e42b01";

fn pair() -> (Encryptor, Encryptor) {
    (
        Encryptor::new(unhex(SEND_KEY), unhex(RECV_KEY), unhex(CHAINING_KEY)),
        Encryptor::new(unhex(RECV_KEY), unhex(SEND_KEY), unhex(CHAINING_KEY)),
    )
}

#[test]
fn frames_match_known_vectors() {
    let (mut sender, _) = pair();
    let expected = [
        (0usize, "cf2b30ddf0cf3f80e7c35a6e6730b59fe802473180f396d88a8fb0db8cbcf25d2f214cf9ea1d95"),
        (1, "72887022101f0b6753e0c7de21657d35a4cb2a1f5cde2650528bbc8f837d0f0d7ad833b1a256a1"),
        (500, "178cb9d7387190fa34db9c2d50027d21793c9bc2d40b1e14dcf30ebeeeb220f48364f7a4c68bf8"),
        (501, "1b186c57d44eb6de4c057c49940d79bb838a145cb528d6e8fd26dbe50a60ca2c104b56b60e45bd"),
        (1000, "4a2f3cc3b5e78ddb83dcb426d9863d9d9a723b0337c89dd0b005d89f8d3c05c52b76b29b740f09"),
        (1001, "2ecd8c8a5629d0d02ab457a0fdd0f7b90a192cd46be5ecb6ca570bfc5e268338b1a16cf4ef2d36"),
    ];
    let mut next = 0;
    for i in 0..1002usize {
        let frame = sender.encrypt(b"hello").unwrap();
        if next < expected.len() && expected[next].0 == i {
            assert_eq!(frame, unhex(expected[next].1), "frame {}", i);
            next += 1;
        }
    }
    assert_eq!(next, expected.len());
}

#[test]
fn frame_has_wire_layout() {
    let (mut sender, mut receiver) = pair();
    let frame = sender.encrypt(&[7u8; 100]).unwrap();
    assert_eq!(frame.len(), 18 + 100 + 16);
    assert_eq!(receiver.decrypt_length_header(&frame[..18]).unwrap(), 100);
    assert_eq!(receiver.decrypt_message(&frame[18..]).unwrap(), vec![7u8; 100]);
    assert_eq!(sender.sending.nonce, 2);
    assert_eq!(receiver.receiving.nonce, 2);
}

#[test]
fn empty_and_largest_payloads_round_trip() {
    let (mut sender, mut receiver) = pair();
    for payload in [Vec::new(), vec![0xabu8; MAX_PAYLOAD_LEN]] {
        let frame = sender.encrypt(&payload).unwrap();
        let len = receiver.decrypt_length_header(&frame[..18]).unwrap();
        assert_eq!(len, payload.len());
        assert_eq!(receiver.decrypt_message(&frame[18..]).unwrap(), payload);
    }
}

#[test]
fn oversized_payload_is_refused_before_encryption() {
    let (mut sender, _) = pair();
    let r = sender.encrypt(&vec![0u8; MAX_PAYLOAD_LEN + 1]);
    assert!(matches!(r, Err(ConnectionError::FrameTooLarge)));
    assert_eq!(sender.sending.nonce, 0);
    assert_eq!(sender.sending.key, unhex(SEND_KEY));
}

#[test]
fn key_rotates_after_threshold() {
    let (mut sender, mut receiver) = pair();
    for _ in 0..500 {
        let frame = sender.encrypt(b"x").unwrap();
        receiver.decrypt_length_header(&frame[..18]).unwrap();
        receiver.decrypt_message(&frame[18..]).unwrap();
    }
    assert_ne!(sender.sending.key, unhex(SEND_KEY));
    assert_eq!(sender.sending.nonce, 0);
    assert_eq!(receiver.receiving.key, sender.sending.key);
    let frame = sender.encrypt(b"after rotation").unwrap();
    let mut stale = DirectionalKeys::new(unhex(SEND_KEY), unhex(CHAINING_KEY));
    assert!(stale.open(&frame[..18]).is_none());
    let mut stale_late = DirectionalKeys { key: unhex(SEND_KEY), chaining_key: unhex(CHAINING_KEY), nonce: 999 };
    assert!(stale_late.open(&frame[..18]).is_none());
    assert_eq!(receiver.decrypt_length_header(&frame[..18]).unwrap(), 14);
    assert_eq!(receiver.decrypt_message(&frame[18..]).unwrap(), b"after rotation".to_vec());
}

#[test]
fn tampered_frame_is_refused_and_nonce_kept() {
    let (mut sender, mut receiver) = pair();
    let mut frame = sender.encrypt(b"payload").unwrap();
    frame[3] ^= 1;
    assert!(matches!(receiver.decrypt_length_header(&frame[..18]), Err(ConnectionError::DecryptFailure)));
    assert_eq!(receiver.receiving.nonce, 0);
    frame[3] ^= 1;
    let last = frame.len() - 1;
    frame[last] ^= 1;
    assert_eq!(receiver.decrypt_length_header(&frame[..18]).unwrap(), 7);
    assert!(matches!(receiver.decrypt_message(&frame[18..]), Err(ConnectionError::DecryptFailure)));
    assert_eq!(receiver.receiving.nonce, 1);
}

#[test]
fn frame_length_is_payload_plus_overhead() {
    let (mut sender, _) = pair();
    for n in [0usize, 1, 1000, MAX_PAYLOAD_LEN] {
        assert_eq!(sender.encrypt(&vec![1u8; n]).unwrap().len(), n + 34);
    }
}
