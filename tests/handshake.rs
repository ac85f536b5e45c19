use lnp_transport::connection::ConnectionError;
use lnp_transport::handshake::{HandshakeRole, PeerHandshake, STEP_DONE, STEP_FAILED};
use lnp_transport::transport::Encryptor;

fn unhex(s: &str) -> Vec<u8> {
    (0..s.len() / 2)
        .map(|i| u8::from_str_radix(&s[2 * i..2 * i + 2], 16).unwrap())
        .collect()
}

fn initiator() -> PeerHandshake {
    PeerHandshake::new_outbound(
        &[0x11u8; 32],
        &unhex("028d7500dd4c12685d1f568b4c2b5048e8534b873319f3a8daa612b469132ec7f7"),
        &[0x12u8; 32],
    )
    .unwrap()
}

fn responder() -> PeerHandshake {
    PeerHandshake::new_inbound(&[0x21u8; 32], &[0x22u8; 32]).unwrap()
}

const ACT_ONE: &str = "00036360e856310ce5d294e8be33fc807077dc56ac80d95d9cd4ddbd21325eff73f70df6086551151f58b8afe6c195782c6a";
const ACT_TWO: &str = "0002466d7fcae563e5cb09a0d1870bb580344804617879a14949cf22285f1bae3f276e2470b93aac583c9ef6eafca3f730ae";
const ACT_THREE: &str = "00b9e3a702e93e3a9948c2ed6e5fd7590a6e1c3a0344cfc9d5b57357049aa22355361aa02e55a8fc28fef5bd6d71ad0c38228dc68b1c466263b47fdf31e560e139ba";
const SEND_KEY: &str = "969ab31b4d288cedf6218839b27a3e2140827047f2c0f01bf5c04435d43511a9";
const RECV_KEY: &str = "bb9020b8965f4df047e07f955f3c4b88418984aadc5cdb35096b9ea8fa5c3442";

fn run_handshake() -> (Encryptor, Encryptor) {
    let mut init = initiator();
    let mut resp = responder();
    let (act1, none) = init.process_act(&[]).unwrap();
    assert!(none.is_none());
    let act1 = act1.unwrap();
    let (act2, none) = resp.process_act(&act1).unwrap();
    assert!(none.is_none());
    let act2 = act2.unwrap();
    let (act3, init_keys) = init.process_act(&act2).unwrap();
    let act3 = act3.unwrap();
    let (nothing, resp_keys) = resp.process_act(&act3).unwrap();
    assert!(nothing.is_none());
    (init_keys.unwrap(), resp_keys.unwrap())
}

#[test]
fn acts_match_known_vectors() {
    let mut init = initiator();
    let mut resp = responder();
    let act1 = init.process_act(&[]).unwrap().0.unwrap();
    assert_eq!(act1, unhex(ACT_ONE));
    let act2 = resp.process_act(&act1).unwrap().0.unwrap();
    assert_eq!(act2, unhex(ACT_TWO));
    let (act3, keys) = init.process_act(&act2).unwrap();
    assert_eq!(act3.unwrap(), unhex(ACT_THREE));
    let keys = keys.unwrap();
    assert_eq!(keys.sending.key, unhex(SEND_KEY));
    assert_eq!(keys.receiving.key, unhex(RECV_KEY));
    assert_eq!(init.step, STEP_DONE);
    let (_, resp_keys) = resp.process_act(&unhex(ACT_THREE)).unwrap();
    let resp_keys = resp_keys.unwrap();
    assert_eq!(resp_keys.receiving.key, unhex(SEND_KEY));
    assert_eq!(resp_keys.sending.key, unhex(RECV_KEY));
    assert_eq!(resp.remote_static, unhex("034f355bdcb7cc0af728ef3cceb9615d90684bb5b2ca5f859ab0f0b704075871aa"));
}

#[test]
fn both_sides_derive_cross_wired_keys() {
    let (mut init, mut resp) = run_handshake();
    let frame = init.encrypt(b"known plaintext").unwrap();
    let len = resp.decrypt_length_header(&frame[..18]).unwrap();
    assert_eq!(len, 15);
    assert_eq!(resp.decrypt_message(&frame[18..]).unwrap(), b"known plaintext".to_vec());
    let back = resp.encrypt(b"reply").unwrap();
    let len = init.decrypt_length_header(&back[..18]).unwrap();
    assert_eq!(init.decrypt_message(&back[18..18 + len + 16]).unwrap(), b"reply".to_vec());
}

#[test]
fn tampered_act_two_fails_handshake() {
    let mut init = initiator();
    let mut resp = responder();
    let act1 = init.process_act(&[]).unwrap().0.unwrap();
    let mut act2 = resp.process_act(&act1).unwrap().0.unwrap();
    let last = act2.len() - 1;
    act2[last] ^= 1;
    let r = init.process_act(&act2);
    assert!(matches!(r, Err(ConnectionError::FailedHandshake(_))));
    assert_eq!(init.step, STEP_FAILED);
    assert!(init.process_act(&[]).is_err());
}

#[test]
fn tampered_act_one_fails_handshake() {
    for i in [0usize, 1, 20, 33, 34, 49] {
        let mut act1 = unhex(ACT_ONE);
        act1[i] ^= 0x80;
        let mut resp = responder();
        assert!(matches!(resp.process_act(&act1), Err(ConnectionError::FailedHandshake(_))));
    }
}

#[test]
fn tampered_act_three_fails_handshake() {
    for i in [0usize, 1, 40, 49, 50, 65] {
        let mut init = initiator();
        let mut resp = responder();
        let act1 = init.process_act(&[]).unwrap().0.unwrap();
        let act2 = resp.process_act(&act1).unwrap().0.unwrap();
        let mut act3 = init.process_act(&act2).unwrap().0.unwrap();
        act3[i] ^= 0x01;
        assert!(matches!(resp.process_act(&act3), Err(ConnectionError::FailedHandshake(_))));
    }
}

#[test]
fn act_of_wrong_size_fails_handshake() {
    let mut resp = responder();
    let mut act1 = unhex(ACT_ONE);
    act1.push(0);
    assert!(matches!(resp.process_act(&act1), Err(ConnectionError::FailedHandshake(_))));
    let mut resp = responder();
    assert!(matches!(resp.process_act(&unhex(ACT_ONE)[..49]), Err(ConnectionError::FailedHandshake(_))));
}

#[test]
fn initiator_refuses_data_before_first_act() {
    let mut init = initiator();
    assert!(matches!(init.process_act(&[1, 2, 3]), Err(ConnectionError::FailedHandshake(_))));
}

#[test]
fn invalid_keys_are_refused() {
    assert!(PeerHandshake::new_outbound(&[0u8; 32], &unhex("028d7500dd4c12685d1f568b4c2b5048e8534b873319f3a8daa612b469132ec7f7"), &[0x12u8; 32]).is_err());
    assert!(PeerHandshake::new_outbound(&[0x11u8; 32], &[0x05u8; 33], &[0x12u8; 32]).is_err());
    assert!(PeerHandshake::new_inbound(&[0xffu8; 32], &[0x22u8; 32]).is_err());
    let hs = PeerHandshake::new_inbound(&[0x21u8; 32], &[0x22u8; 32]).unwrap();
    assert_eq!(hs.role, HandshakeRole::Responder);
}
