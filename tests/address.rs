use lnp_transport::address::{AddressFormatError, InetAddr, NodeAddr, LIGHTNING_P2P_DEFAULT_PORT};

const NODE_ID: &str = "028d7500dd4c12685d1f568b4c2b5048e8534b873319f3a8daa612b469132ec7f7";
const ONION: &str = "vww6ybal4bd7szmgncyruucpgfkqahzddi37ktceo3ah7ngmcopnpyyd";

#[test]
fn parses_ipv4_with_port() {
    let a = NodeAddr::from_str(&format!("{}@127.0.0.1:9000", NODE_ID)).unwrap();
    assert_eq!(a.node_id.len(), 33);
    assert_eq!(a.node_id[0], 0x02);
    assert_eq!(a.node_id[32], 0xf7);
    assert!(matches!(&a.inet_addr.address, InetAddr::IPv4(o) if o == &vec![127u8, 0, 0, 1]));
    assert_eq!(a.inet_addr.port, 9000);
}

#[test]
fn default_port_when_absent() {
    let a = NodeAddr::from_str(&format!("{}@10.20.30.40", NODE_ID)).unwrap();
    assert_eq!(a.inet_addr.port, LIGHTNING_P2P_DEFAULT_PORT);
    assert_eq!(a.inet_addr.port, 9735);
    assert_eq!(a.to_string(), format!("{}@10.20.30.40:9735", NODE_ID));
}

#[test]
fn parses_onion_host() {
    let a = NodeAddr::from_str(&format!("{}@{}.onion:1234", NODE_ID, ONION)).unwrap();
    assert!(a.inet_addr.address.is_tor());
    assert_eq!(a.to_string(), format!("{}@{}.onion:1234", NODE_ID, ONION));
}

#[test]
fn format_normalises_and_is_idempotent() {
    let s = format!("{}@001.2.30.255:0080", NODE_ID.to_uppercase());
    let first = NodeAddr::from_str(&s).unwrap().to_string();
    assert_eq!(first, format!("{}@1.2.30.255:80", NODE_ID));
    let second = NodeAddr::from_str(&first).unwrap().to_string();
    assert_eq!(first, second);
}

#[test]
fn malformed_addresses_are_refused() {
    let cases = [
        (format!("{}127.0.0.1:9735", NODE_ID), AddressFormatError::MissingSeparator),
        ("02zz@127.0.0.1".to_string(), AddressFormatError::InvalidNodeId),
        (format!("{}@127.0.0.1", &NODE_ID[..64]), AddressFormatError::InvalidNodeId),
        (format!("05{}@127.0.0.1", &NODE_ID[2..]), AddressFormatError::InvalidNodeId),
        (format!("{}@127.0.0:9735", NODE_ID), AddressFormatError::InvalidHost),
        (format!("{}@256.0.0.1", NODE_ID), AddressFormatError::InvalidHost),
        (format!("{}@example.com", NODE_ID), AddressFormatError::InvalidHost),
        (format!("{}@127.0.0.1:port", NODE_ID), AddressFormatError::InvalidPort),
        (format!("{}@127.0.0.1:65536", NODE_ID), AddressFormatError::InvalidPort),
        (format!("{}@127.0.0.1:", NODE_ID), AddressFormatError::InvalidPort),
    ];
    for (s, e) in cases {
        assert_eq!(NodeAddr::from_str(&s).err(), Some(e), "{}", s);
    }
}

#[test]
fn parses_bracketed_ipv6() {
    let s = format!("{}@[2001:DB8:0:0:0:0:0:0001]:9000", NODE_ID);
    let a = NodeAddr::from_str(&s).unwrap();
    assert!(matches!(&a.inet_addr.address, InetAddr::IPv6(g) if g == &vec![0x2001u16, 0xdb8, 0, 0, 0, 0, 0, 1]));
    assert_eq!(a.inet_addr.port, 9000);
    assert_eq!(a.to_string(), format!("{}@[2001:db8:0:0:0:0:0:1]:9000", NODE_ID));
    let b = NodeAddr::from_str(&format!("{}@[ffff:0:0:0:0:0:0:ff]", NODE_ID)).unwrap();
    assert_eq!(b.inet_addr.port, LIGHTNING_P2P_DEFAULT_PORT);
}

#[test]
fn parses_compressed_ipv6() {
    let a = NodeAddr::from_str(&format!("{}@::1", NODE_ID)).unwrap();
    assert!(matches!(&a.inet_addr.address, InetAddr::IPv6(g) if g == &vec![0u16, 0, 0, 0, 0, 0, 0, 1]));
    assert_eq!(a.inet_addr.port, LIGHTNING_P2P_DEFAULT_PORT);
    assert_eq!(a.to_string(), format!("{}@[0:0:0:0:0:0:0:1]:9735", NODE_ID));
    let b = NodeAddr::from_str(&format!("{}@[::1]:9000", NODE_ID)).unwrap();
    assert!(matches!(&b.inet_addr.address, InetAddr::IPv6(g) if g == &vec![0u16, 0, 0, 0, 0, 0, 0, 1]));
    assert_eq!(b.inet_addr.port, 9000);
    let c = NodeAddr::from_str(&format!("{}@[2001:db8::ff00:42:8329]:10", NODE_ID)).unwrap();
    assert!(matches!(&c.inet_addr.address, InetAddr::IPv6(g) if g == &vec![0x2001u16, 0xdb8, 0, 0, 0, 0xff00, 0x42, 0x8329]));
    let d = NodeAddr::from_str(&format!("{}@[fe80::]", NODE_ID)).unwrap();
    assert!(matches!(&d.inet_addr.address, InetAddr::IPv6(g) if g == &vec![0xfe80u16, 0, 0, 0, 0, 0, 0, 0]));
    let e = NodeAddr::from_str(&format!("{}@[::]", NODE_ID)).unwrap();
    assert!(matches!(&e.inet_addr.address, InetAddr::IPv6(g) if g == &vec![0u16; 8]));
    let f = NodeAddr::from_str(&format!("{}@1:2:3:4:5:6:7:8", NODE_ID)).unwrap();
    assert!(matches!(&f.inet_addr.address, InetAddr::IPv6(g) if g == &vec![1u16, 2, 3, 4, 5, 6, 7, 8]));
    let again = NodeAddr::from_str(&c.to_string()).unwrap();
    assert_eq!(again.to_string(), c.to_string());
}

#[test]
fn malformed_ipv6_is_refused() {
    let cases = [
        (format!("{}@[1:2:3:4:5:6:7]", NODE_ID), AddressFormatError::InvalidHost),
        (format!("{}@[1:2:3:4:5:6:7:10000]", NODE_ID), AddressFormatError::InvalidHost),
        (format!("{}@[1:2:3:4:5:6:7:8", NODE_ID), AddressFormatError::InvalidHost),
        (format!("{}@[1::2::3]", NODE_ID), AddressFormatError::InvalidHost),
        (format!("{}@[1:2:3:4::5:6:7:8]", NODE_ID), AddressFormatError::InvalidHost),
        (format!("{}@[:::1]", NODE_ID), AddressFormatError::InvalidHost),
        (format!("{}@[1:2:3:4:5:6:7:8]9000", NODE_ID), AddressFormatError::InvalidPort),
        (format!("{}@::g", NODE_ID), AddressFormatError::InvalidHost),
    ];
    for (s, e) in cases {
        assert_eq!(NodeAddr::from_str(&s).err(), Some(e), "{}", s);
    }
}

#[test]
fn second_separator_is_refused() {
    let s = format!("{}@127.0.0.1@9735", NODE_ID);
    assert!(NodeAddr::from_str(&s).is_err());
    let s = format!("{}@127.0.0.1:97@5", NODE_ID);
    assert!(NodeAddr::from_str(&s).is_err());
}
