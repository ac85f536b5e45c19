use lnp_transport::address::NodeAddr;
use lnp_transport::connection::{ConnectionError, Session};
use lnp_transport::handshake::PeerHandshake;

const NODE_ID: &str = "028d7500dd4c12685d1f568b4c2b5048e8534b873319f3a8daa612b469132ec7f7";
const ONION: &str = "vww6ybal4bd7szmgncyruucpgfkqahzddi37ktceo3ah7ngmcopnpyyd";

#[test]
fn onion_address_is_refused_before_io() {
    let a = NodeAddr::from_str(&format!("{}@{}.onion", NODE_ID, ONION)).unwrap();
    let r = a.connect(&[0x11u8; 32], &[0x12u8; 32]);
    assert!(matches!(r, Err(ConnectionError::TorNotYetSupported)));
}

#[test]
fn ipv4_address_starts_handshake() {
    let a = NodeAddr::from_str(&format!("{}@127.0.0.1:9735", NODE_ID)).unwrap();
    let hs = a.connect(&[0x11u8; 32], &[0x12u8; 32]).unwrap();
    assert_eq!(hs.step, 0);
    assert!(matches!(a.connect(&[0u8; 32], &[0x12u8; 32]), Err(ConnectionError::FailedHandshake(_))));
}

#[test]
fn sessions_establish_and_exchange_frames() {
    let a = NodeAddr::from_str(&format!("{}@127.0.0.1:9735", NODE_ID)).unwrap();
    let mut init = Session::Handshaking(a.connect(&[0x11u8; 32], &[0x12u8; 32]).unwrap());
    let mut resp = Session::Handshaking(PeerHandshake::new_inbound(&[0x21u8; 32], &[0x22u8; 32]).unwrap());
    assert!(init.send(b"early").is_err());
    let act1 = init.handshake_step(&[]).unwrap().unwrap();
    let act2 = resp.handshake_step(&act1).unwrap().unwrap();
    let act3 = init.handshake_step(&act2).unwrap().unwrap();
    assert!(resp.handshake_step(&act3).unwrap().is_none());
    assert!(matches!(init, Session::Established(_)));
    assert!(matches!(resp, Session::Established(_)));
    let frame = init.send(b"ping").unwrap();
    let len = resp.receive_length(&frame[..18]).unwrap();
    assert_eq!(resp.receive_message(&frame[18..18 + len + 16]).unwrap(), b"ping".to_vec());
    assert!(matches!(init.send(&vec![0u8; 70000]), Err(ConnectionError::FrameTooLarge)));
    assert!(matches!(init, Session::Established(_)));
}

#[test]
fn decrypt_failure_closes_session() {
    let a = NodeAddr::from_str(&format!("{}@127.0.0.1:9735", NODE_ID)).unwrap();
    let mut init = Session::Handshaking(a.connect(&[0x11u8; 32], &[0x12u8; 32]).unwrap());
    let mut resp = Session::Handshaking(PeerHandshake::new_inbound(&[0x21u8; 32], &[0x22u8; 32]).unwrap());
    let act1 = init.handshake_step(&[]).unwrap().unwrap();
    let act2 = resp.handshake_step(&act1).unwrap().unwrap();
    let act3 = init.handshake_step(&act2).unwrap().unwrap();
    resp.handshake_step(&act3).unwrap();
    let mut frame = init.send(b"ping").unwrap();
    frame[0] ^= 0xff;
    assert!(matches!(resp.receive_length(&frame[..18]), Err(ConnectionError::DecryptFailure)));
    assert!(matches!(resp, Session::Closed));
    assert!(resp.receive_length(&frame[..18]).is_err());
    resp.close();
    assert!(matches!(resp, Session::Closed));
}

#[test]
fn failed_act_closes_session() {
    let mut resp = Session::Handshaking(PeerHandshake::new_inbound(&[0x21u8; 32], &[0x22u8; 32]).unwrap());
    assert!(matches!(resp.handshake_step(&[0u8; 50]), Err(ConnectionError::FailedHandshake(_))));
    assert!(matches!(resp, Session::Closed));
}
