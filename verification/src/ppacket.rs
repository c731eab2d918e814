use crate::hashing::{get_hash, lower_hex, sha3_256};
use crate::text::{decimal_string, decimal_text, utf8_text};
use vstd::bytes::*;
use vstd::prelude::*;
use vstd::slice::{slice_subrange, slice_to_vec};
use vstd::utf8::{decode_utf8, encode_utf8, valid_utf8};

verus! {

/// A packet of the peer protocol: a command number, the length of the
/// payload, the checksum of the payload (hex text) and the payload.
#[derive(Debug)]
pub struct PPacket {
    pub command: u64,
    pub payload_size: u32,
    pub checksum: String,
    pub payload: Vec<u8>,
}

/// The contents of a packet as plain values.
pub struct PPacketView {
    pub command: u64,
    pub payload_size: u32,
    pub checksum: Seq<char>,
    pub payload: Seq<u8>,
}

impl View for PPacket {
    type V = PPacketView;

    open spec fn view(&self) -> PPacketView {
        PPacketView {
            command: self.command,
            payload_size: self.payload_size,
            checksum: self.checksum@,
            payload: self.payload@,
        }
    }
}

/// Why a received message is not a packet.
#[derive(Debug, Clone, Copy, PartialEq, Eq, Structural)]
pub enum PacketError {
    /// Nothing was received: the peer closed the connection.
    ConnectionClosed,
    /// Fewer than the 12 bytes of command and payload size.
    Truncated,
    /// The payload size is larger than what follows the header.
    PayloadTooLong,
    /// The checksum bytes are not UTF-8.
    ChecksumNotUtf8,
}

impl PacketError {
    /// The text of the error.
    pub fn message(&self) -> (s: &'static str)
        ensures
            s@ == (match self {
                PacketError::ConnectionClosed => "Connection Closed!"@,
                PacketError::Truncated => "Packet shorter than its header!"@,
                PacketError::PayloadTooLong => "Payload size larger than the packet!"@,
                PacketError::ChecksumNotUtf8 => "Checksum is not UTF-8!"@,
            }),
    {
        match self {
            PacketError::ConnectionClosed => "Connection Closed!",
            PacketError::Truncated => "Packet shorter than its header!",
            PacketError::PayloadTooLong => "Payload size larger than the packet!",
            PacketError::ChecksumNotUtf8 => "Checksum is not UTF-8!",
        }
    }
}

/// The packet that carries `payload` under `command`, with its size and
/// checksum.
pub open spec fn packet_of(command: u64, payload: Seq<u8>) -> PPacketView {
    PPacketView {
        command,
        payload_size: payload.len() as u32,
        checksum: lower_hex(sha3_256(payload)),
        payload,
    }
}

/// The payload size field of a frame (bytes 8 to 12, little endian).
pub open spec fn frame_payload_size(bytes: Seq<u8>) -> int {
    spec_u32_from_le_bytes(bytes.subrange(8, 12)) as int
}

/// Whether `bytes` is a frame: a 12-byte header, a payload no longer than
/// what follows the header, and a checksum between them that is UTF-8.
pub open spec fn is_frame(bytes: Seq<u8>) -> bool {
    &&& bytes.len() >= 12
    &&& frame_payload_size(bytes) <= bytes.len() - 12
    &&& valid_utf8(bytes.subrange(12, bytes.len() - frame_payload_size(bytes)))
}

/// The packet that a frame holds: the command in bytes 0 to 8 and the
/// payload size in bytes 8 to 12 (both little endian), the payload in the
/// last `payload_size` bytes and the checksum text in between.
pub open spec fn frame_packet(bytes: Seq<u8>) -> PPacketView {
    let n = bytes.len() - frame_payload_size(bytes);
    PPacketView {
        command: spec_u64_from_le_bytes(bytes.subrange(0, 8)),
        payload_size: spec_u32_from_le_bytes(bytes.subrange(8, 12)),
        checksum: decode_utf8(bytes.subrange(12, n)),
        payload: bytes.subrange(n, bytes.len() as int),
    }
}

/// The bytes of a packet on the wire: command and payload size in little
/// endian, the UTF-8 checksum, the payload.
pub open spec fn packet_bytes(p: PPacketView) -> Seq<u8> {
    spec_u64_to_le_bytes(p.command) + spec_u32_to_le_bytes(p.payload_size) + encode_utf8(
        p.checksum,
    ) + p.payload
}

/// What decoding a received message gives.
pub open spec fn decoded(bytes: Seq<u8>) -> Result<PPacketView, PacketError> {
    if bytes.len() == 0 {
        Err(PacketError::ConnectionClosed)
    } else if bytes.len() < 12 {
        Err(PacketError::Truncated)
    } else if frame_payload_size(bytes) > bytes.len() - 12 {
        Err(PacketError::PayloadTooLong)
    } else if !is_frame(bytes) {
        Err(PacketError::ChecksumNotUtf8)
    } else {
        Ok(frame_packet(bytes))
    }
}

/// The payload of a ping packet, "Ping".
pub open spec fn ping_payload() -> Seq<u8> {
    seq![80u8, 105u8, 110u8, 103u8]
}

/// The payload of a pong packet, "Pong".
pub open spec fn pong_payload() -> Seq<u8> {
    seq![80u8, 111u8, 110u8, 103u8]
}

/// The payload of a connection request for the peer `ip:port`: the JSON
/// text `{"ip":"<ip>" , "port":"<port>"}`.
pub open spec fn con_req_text(ip: Seq<char>, port: int) -> Seq<char> {
    "{\"ip\":\""@ + ip + "\" , \"port\":\""@ + decimal_text(port) + "\"}"@
}

/// Whether the checksum of a packet is that of its payload.
pub open spec fn checksum_matches(p: PPacketView) -> bool {
    p.checksum == lower_hex(sha3_256(p.payload))
}

fn bytes_eq(a: &[u8], b: &[u8]) -> (r: bool)
    ensures
        r == (a@ == b@),
{
    if a.len() != b.len() {
        return false;
    }
    let mut i: usize = 0;
    while i < a.len()
        invariant
            a@.len() == b@.len(),
            i <= a@.len(),
            forall|k: int| 0 <= k < i ==> a@[k] == b@[k],
        decreases a@.len() - i,
    {
        if a[i] != b[i] {
            return false;
        }
        i = i + 1;
    }
    assert(a@ =~= b@);
    true
}

/// The packet that a frame holds; the bytes must form a frame (see
/// `decode_ppacket` for any bytes).
pub fn from_byte_vec(bytes: &[u8]) -> (p: PPacket)
    requires
        is_frame(bytes@),
    ensures
        p@ == frame_packet(bytes@),
{
    let len = bytes.len();
    let command = u64_from_le_bytes(slice_subrange(bytes, 0, 8));
    let payload_size = u32_from_le_bytes(slice_subrange(bytes, 8, 12));
    let n = len - payload_size as usize;
    let checksum = utf8_text(slice_subrange(bytes, 12, n)).unwrap();
    let payload = slice_to_vec(slice_subrange(bytes, n, len));
    PPacket { command, payload_size, checksum, payload }
}

/// Turns a received message into a packet, or says why it is none.
pub fn decode_ppacket(message: &[u8]) -> (r: Result<PPacket, PacketError>)
    ensures
        match r {
            Ok(p) => decoded(message@) == Ok::<PPacketView, PacketError>(p@),
            Err(e) => decoded(message@) == Err::<PPacketView, PacketError>(e),
        },
{
    let len = message.len();
    if len == 0 {
        return Err(PacketError::ConnectionClosed);
    }
    if len < 12 {
        return Err(PacketError::Truncated);
    }
    let payload_size = u32_from_le_bytes(slice_subrange(message, 8, 12));
    if payload_size as usize > len - 12 {
        return Err(PacketError::PayloadTooLong);
    }
    let n = len - payload_size as usize;
    match utf8_text(slice_subrange(message, 12, n)) {
        None => Err(PacketError::ChecksumNotUtf8),
        Some(_) => Ok(from_byte_vec(message)),
    }
}

impl PPacket {
    /// The packet that carries `payload` under `command`. The size field is
    /// the payload length cut to 32 bits, as `as u32` does.
    pub fn new(command: u64, payload: &[u8]) -> (p: PPacket)
        ensures
            p@ == packet_of(command, payload@),
    {
        let payload_size = payload.len() as u32;
        let checksum = get_hash(payload);
        PPacket { command, payload_size, checksum, payload: slice_to_vec(payload) }
    }

    /// The ping packet: command 0, payload "Ping".
    pub fn ping() -> (p: PPacket)
        ensures
            p@ == packet_of(0, ping_payload()),
    {
        let payload: Vec<u8> = vec![80u8, 105u8, 110u8, 103u8];
        assert(payload@ =~= ping_payload());
        PPacket::new(0, payload.as_slice())
    }

    /// The pong packet: command 0, payload "Pong".
    pub fn pong() -> (p: PPacket)
        ensures
            p@ == packet_of(0, pong_payload()),
    {
        let payload: Vec<u8> = vec![80u8, 111u8, 110u8, 103u8];
        assert(payload@ =~= pong_payload());
        PPacket::new(0, payload.as_slice())
    }

    /// Whether this is a ping: command 0 and payload "Ping".
    pub fn is_ping(&self) -> (r: bool)
        ensures
            r == (self.command == 0 && self.payload@ == ping_payload()),
    {
        let ping: Vec<u8> = vec![80u8, 105u8, 110u8, 103u8];
        assert(ping@ =~= ping_payload());
        self.command == 0 && bytes_eq(self.payload.as_slice(), ping.as_slice())
    }

    /// Whether this is a pong: command 0 and payload "Pong".
    pub fn is_pong(&self) -> (r: bool)
        ensures
            r == (self.command == 0 && self.payload@ == pong_payload()),
    {
        let pong: Vec<u8> = vec![80u8, 111u8, 110u8, 103u8];
        assert(pong@ =~= pong_payload());
        self.command == 0 && bytes_eq(self.payload.as_slice(), pong.as_slice())
    }

    /// The packet that carries the UTF-8 bytes of `payload` under `command`.
    pub fn from_str(command: u64, payload: &str) -> (p: PPacket)
        ensures
            p@ == packet_of(command, encode_utf8(payload@)),
    {
        PPacket::new(command, payload.as_bytes())
    }

    /// A connection request announcing the peer `ip:port`: command 1 with
    /// the JSON text of the address.
    pub fn con_req(ip: &str, port: i64) -> (p: PPacket)
        ensures
            p@ == packet_of(1, encode_utf8(con_req_text(ip@, port as int))),
    {
        let mut text = "{\"ip\":\"".to_owned();
        text.append(ip);
        text.append("\" , \"port\":\"");
        let port_text = decimal_string(port);
        text.append(port_text.as_str());
        text.append("\"}");
        PPacket::from_str(1, text.as_str())
    }

    /// The question whether a peer still wants a connection: command 3,
    /// payload "Question".
    pub fn con_ques() -> (p: PPacket)
        ensures
            p@ == packet_of(3, encode_utf8("Question"@)),
    {
        PPacket::from_str(3, "Question")
    }

    /// The answer to a connection question: command 4, payload "true" or
    /// "false".
    pub fn con_ans(accept: bool) -> (p: PPacket)
        ensures
            p@ == packet_of(4, encode_utf8(if accept { "true"@ } else { "false"@ })),
    {
        if accept {
            PPacket::from_str(4, "true")
        } else {
            PPacket::from_str(4, "false")
        }
    }

    /// Whether this is a connection request (command 1).
    pub fn is_con_req(&self) -> (r: bool)
        ensures
            r == (self.command == 1),
    {
        self.command == 1
    }

    /// Whether this is a connection question (command 3).
    pub fn is_con_ques(&self) -> (r: bool)
        ensures
            r == (self.command == 3),
    {
        self.command == 3
    }

    /// Whether this is an answer to a connection question (command 4).
    pub fn is_con_ans(&self) -> (r: bool)
        ensures
            r == (self.command == 4),
    {
        self.command == 4
    }

    /// Whether the payload says "true".
    pub fn get_ans(&self) -> (r: bool)
        ensures
            r == (self.payload@ == encode_utf8("true"@)),
    {
        bytes_eq(self.payload.as_slice(), "true".as_bytes())
    }

    /// The checksum that the payload has.
    pub fn get_checksum(&self) -> (h: String)
        ensures
            h@ == lower_hex(sha3_256(self.payload@)),
    {
        get_hash(self.payload.as_slice())
    }

    /// Whether the checksum field is the checksum of the payload.
    pub fn is_valid(&self) -> (r: bool)
        ensures
            r == checksum_matches(self@),
    {
        self.checksum == self.get_checksum()
    }

    /// The bytes of this packet on the wire.
    pub fn to_byte_vec(&self) -> (bytes: Vec<u8>)
        ensures
            bytes@ == packet_bytes(self@),
    {
        let mut message: Vec<u8> = Vec::new();
        let mut command = u64_to_le_bytes(self.command);
        message.append(&mut command);
        let mut size = u32_to_le_bytes(self.payload_size);
        message.append(&mut size);
        let mut checksum = slice_to_vec(self.checksum.as_str().as_bytes());
        message.append(&mut checksum);
        let mut payload = slice_to_vec(self.payload.as_slice());
        message.append(&mut payload);
        message
    }

    /// The checksum of the whole packet on the wire, which tells messages
    /// apart.
    pub fn overall_checksum(&self) -> (h: String)
        ensures
            h@ == lower_hex(sha3_256(packet_bytes(self@))),
    {
        let bytes = self.to_byte_vec();
        get_hash(bytes.as_slice())
    }
}


/// A packet whose size field is its payload length goes over the wire and
/// comes back whole: its bytes form a frame, and decoding them gives the
/// packet again.
pub proof fn lemma_wire_roundtrip(p: PPacketView)
    requires
        p.payload_size == p.payload.len(),
    ensures
        is_frame(packet_bytes(p)),
        frame_packet(packet_bytes(p)) == p,
        decoded(packet_bytes(p)) == Ok::<PPacketView, PacketError>(p),
{
    lemma_auto_spec_u64_to_from_le_bytes();
    lemma_auto_spec_u32_to_from_le_bytes();
    vstd::utf8::encode_utf8_valid_utf8(p.checksum);
    vstd::utf8::encode_utf8_decode_utf8(p.checksum);
    let a = spec_u64_to_le_bytes(p.command);
    let b = spec_u32_to_le_bytes(p.payload_size);
    let c = encode_utf8(p.checksum);
    let d = p.payload;
    let bytes = packet_bytes(p);
    assert(bytes.subrange(0, 8) =~= a);
    assert(bytes.subrange(8, 12) =~= b);
    let n = bytes.len() - d.len();
    assert(bytes.subrange(12, n) =~= c);
    assert(bytes.subrange(n, bytes.len() as int) =~= d);
}

/// Every frame is the wire form of the packet that it holds: decoding and
/// encoding again gives the same bytes.
pub proof fn lemma_frame_reencode(bytes: Seq<u8>)
    requires
        is_frame(bytes),
    ensures
        packet_bytes(frame_packet(bytes)) == bytes,
{
    lemma_auto_spec_u64_to_from_le_bytes();
    lemma_auto_spec_u32_to_from_le_bytes();
    let n = bytes.len() - frame_payload_size(bytes);
    vstd::utf8::decode_utf8_encode_utf8(bytes.subrange(12, n));
    assert(packet_bytes(frame_packet(bytes)) =~= bytes.subrange(0, 8) + bytes.subrange(8, 12)
        + bytes.subrange(12, n) + bytes.subrange(n, bytes.len() as int));
    assert(bytes.subrange(0, 8) + bytes.subrange(8, 12) + bytes.subrange(12, n) + bytes.subrange(
        n,
        bytes.len() as int,
    ) =~= bytes);
}

/// A packet built from a payload carries the checksum of that payload, and,
/// when the payload length fits in 32 bits, a size field equal to it, so
/// that it survives the wire.
pub proof fn lemma_new_packet_is_valid(command: u64, payload: Seq<u8>)
    ensures
        checksum_matches(packet_of(command, payload)),
        payload.len() <= u32::MAX ==> packet_of(command, payload).payload_size
            == payload.len(),
        payload.len() <= u32::MAX ==> decoded(packet_bytes(packet_of(command, payload)))
            == Ok::<PPacketView, PacketError>(packet_of(command, payload)),
{
    if payload.len() <= u32::MAX {
        lemma_wire_roundtrip(packet_of(command, payload));
    }
}

/// A ping is never taken for a pong, nor a pong for a ping.
pub proof fn lemma_ping_pong_distinct()
    ensures
        packet_of(0, ping_payload()).payload != pong_payload(),
        packet_of(0, pong_payload()).payload != ping_payload(),
{
    assert(ping_payload()[1] != pong_payload()[1]);
}

/// A connection request names the peer it announces: its payload text is
/// `{"ip":"`, then the given address exactly as given, then
/// `" , "port":"`, then the decimal text of the given port, then `"}`.
pub proof fn lemma_con_req_names_peer(ip: Seq<char>, port: int)
    ensures
        ({
            let t = con_req_text(ip, port);
            let n = ip.len() as int;
            let d = decimal_text(port).len() as int;
            &&& t.len() == 7 + n + 12 + d + 2
            &&& t.subrange(0, 7) == seq!['{', '"', 'i', 'p', '"', ':', '"']
            &&& t.subrange(7, 7 + n) == ip
            &&& t.subrange(7 + n, 19 + n) == seq![
                '"',
                ' ',
                ',',
                ' ',
                '"',
                'p',
                'o',
                'r',
                't',
                '"',
                ':',
                '"',
            ]
            &&& t.subrange(19 + n, 19 + n + d) == decimal_text(port)
            &&& t.subrange(19 + n + d, 21 + n + d) == seq!['"', '}']
        }),
{
    reveal_strlit("{\"ip\":\"");
    reveal_strlit("\" , \"port\":\"");
    reveal_strlit("\"}");
    let t = con_req_text(ip, port);
    let n = ip.len() as int;
    let d = decimal_text(port).len() as int;
    assert(t.subrange(0, 7) =~= seq!['{', '"', 'i', 'p', '"', ':', '"']);
    assert(t.subrange(7, 7 + n) =~= ip);
    assert(t.subrange(7 + n, 19 + n) =~= seq![
        '"',
        ' ',
        ',',
        ' ',
        '"',
        'p',
        'o',
        'r',
        't',
        '"',
        ':',
        '"',
    ]);
    assert(t.subrange(19 + n, 19 + n + d) =~= decimal_text(port));
    assert(t.subrange(19 + n + d, 21 + n + d) =~= seq!['"', '}']);
}

} // verus!
