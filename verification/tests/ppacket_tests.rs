use layer0::hashing::{get_hash, get_hash_str};
use layer0::ppacket::{decode_ppacket, from_byte_vec, PPacket, PacketError};

const EMPTY_SHA3: &str = "a7ffc6f8bf1ed76651c14756a061d662f580ff4de43b49fa82d80a4b80f8434a";
const ABC_SHA3: &str = "3a985da74fe225b2045c172d6bd390bd855f086e3e9d525b46bfe24511431532";

#[test]
fn hash_of_known_inputs() {
    assert_eq!(get_hash(b""), EMPTY_SHA3);
    assert_eq!(get_hash(b"abc"), ABC_SHA3);
    assert_eq!(get_hash_str("abc"), ABC_SHA3);
    assert_eq!(get_hash(b"abc").len(), 64);
}

#[test]
fn new_packet_fields() {
    let p = PPacket::new(7, b"abc");
    assert_eq!(p.command, 7);
    assert_eq!(p.payload_size, 3);
    assert_eq!(p.checksum, ABC_SHA3);
    assert_eq!(p.payload, b"abc".to_vec());
    assert!(p.is_valid());
    assert_eq!(p.get_checksum(), ABC_SHA3);
}

#[test]
fn from_str_is_new_on_utf8_bytes() {
    let a = PPacket::from_str(1, "héllo");
    let b = PPacket::new(1, "héllo".as_bytes());
    assert_eq!(a.payload_size, 6);
    assert_eq!(a.payload, b.payload);
    assert_eq!(a.checksum, b.checksum);
    assert_eq!(a.to_byte_vec(), b.to_byte_vec());
}

#[test]
fn ping_and_pong() {
    let ping = PPacket::ping();
    let pong = PPacket::pong();
    assert!(ping.is_ping());
    assert!(!ping.is_pong());
    assert!(pong.is_pong());
    assert!(!pong.is_ping());
    assert_eq!(ping.payload, b"Ping".to_vec());
    assert_eq!(pong.payload, b"Pong".to_vec());
    let other = PPacket::new(1, b"Ping");
    assert!(!other.is_ping());
}

#[test]
fn wire_bytes_layout() {
    let p = PPacket {
        command: 0x0102,
        payload_size: 2,
        checksum: "ab".to_string(),
        payload: vec![9, 8],
    };
    let bytes = p.to_byte_vec();
    assert_eq!(bytes, vec![2, 1, 0, 0, 0, 0, 0, 0, 2, 0, 0, 0, b'a', b'b', 9, 8]);
}

#[test]
fn wire_roundtrip() {
    let p = PPacket::new(42, b"hello world");
    let bytes = p.to_byte_vec();
    assert_eq!(bytes.len(), 8 + 4 + 64 + 11);
    let q = from_byte_vec(&bytes);
    assert_eq!(q.command, p.command);
    assert_eq!(q.payload_size, p.payload_size);
    assert_eq!(q.checksum, p.checksum);
    assert_eq!(q.payload, p.payload);
    assert!(q.is_valid());
    let r = decode_ppacket(&bytes).unwrap();
    assert_eq!(r.to_byte_vec(), bytes);
    assert_eq!(r.overall_checksum(), p.overall_checksum());
}

#[test]
fn frame_reencodes_to_same_bytes() {
    let mut bytes = vec![5, 0, 0, 0, 0, 0, 0, 0, 1, 0, 0, 0];
    bytes.extend_from_slice("zé".as_bytes());
    bytes.push(77);
    let p = from_byte_vec(&bytes);
    assert_eq!(p.command, 5);
    assert_eq!(p.payload_size, 1);
    assert_eq!(p.checksum, "zé");
    assert_eq!(p.payload, vec![77]);
    assert!(!p.is_valid());
    assert_eq!(p.to_byte_vec(), bytes);
}

#[test]
fn overall_checksum_is_hash_of_wire_bytes() {
    let p = PPacket::new(3, b"x");
    assert_eq!(p.overall_checksum(), get_hash(&p.to_byte_vec()));
    assert_ne!(p.overall_checksum(), p.checksum);
}

#[test]
fn decode_errors() {
    assert_eq!(decode_ppacket(&[]).unwrap_err(), PacketError::ConnectionClosed);
    assert_eq!(decode_ppacket(&[1, 2, 3]).unwrap_err(), PacketError::Truncated);
    let too_long = vec![0, 0, 0, 0, 0, 0, 0, 0, 5, 0, 0, 0, 1, 2];
    assert_eq!(decode_ppacket(&too_long).unwrap_err(), PacketError::PayloadTooLong);
    let bad_utf8 = vec![0, 0, 0, 0, 0, 0, 0, 0, 0, 0, 0, 0, 0xff, 0xfe];
    assert_eq!(decode_ppacket(&bad_utf8).unwrap_err(), PacketError::ChecksumNotUtf8);
    assert_eq!(PacketError::ConnectionClosed.message(), "Connection Closed!");
}

#[test]
fn decode_header_only() {
    let bytes = vec![0u8; 12];
    let p = decode_ppacket(&bytes).unwrap();
    assert_eq!(p.command, 0);
    assert_eq!(p.payload_size, 0);
    assert_eq!(p.checksum, "");
    assert!(p.payload.is_empty());
}

#[test]
fn connection_protocol_packets() {
    let r = PPacket::con_req("127.0.0.1", 8081);
    assert_eq!(r.command, 1);
    assert_eq!(r.payload, br#"{"ip":"127.0.0.1" , "port":"8081"}"#.to_vec());
    assert!(r.is_con_req() && !r.is_con_ques() && !r.is_con_ans());
    assert!(r.is_valid());
    let q = PPacket::con_ques();
    assert_eq!((q.command, q.payload.as_slice()), (3, b"Question".as_slice()));
    assert!(q.is_con_ques());
    let yes = PPacket::con_ans(true);
    let no = PPacket::con_ans(false);
    assert!(yes.is_con_ans() && yes.get_ans());
    assert!(no.is_con_ans() && !no.get_ans());
    assert_eq!(no.payload, b"false".to_vec());
}
