use crate::connections::{digests_of, invariant_holds, Node, NodeView};
use crate::hashing::{lower_hex, sha3_256};
use crate::ppacket::{
    checksum_matches, packet_bytes, packet_of, ping_payload, pong_payload, PPacket, PPacketView,
};
use crate::jsonize::{is_json, json_dump, json_member, member, parse_json, read_json_member, Json, JsonMember};
use crate::text::{text_eq, utf8_text};
use vstd::utf8::{decode_utf8, encode_utf8, valid_utf8};
use vstd::prelude::*;

verus! {

/// What a node does with a packet it received from a peer.
#[derive(Debug, Clone, Copy, PartialEq, Eq, Structural)]
pub enum Dispatch {
    /// The checksum is not that of the payload: the packet is dropped.
    Invalid,
    /// The same packet was seen before: it is dropped.
    Duplicate,
    /// Command 1: a peer asks to connect.
    ConnectionRequest,
    /// Command 2: a ping or a pong.
    PingPong,
    /// Commands 3 and 4: accepted, nothing to do.
    Reserved,
    /// Any other command.
    UnknownCommand,
}

/// What a fresh, valid packet with this command is handed to.
pub open spec fn dispatch_of(command: u64) -> Dispatch {
    if command == 1 {
        Dispatch::ConnectionRequest
    } else if command == 2 {
        Dispatch::PingPong
    } else if command == 3 || command == 4 {
        Dispatch::Reserved
    } else {
        Dispatch::UnknownCommand
    }
}

/// What taking in packet `p` at time `now` does to a node in state `n`: the
/// dispatch, and the state after.
pub open spec fn receipt(n: NodeView, p: PPacketView, now: u64) -> (Dispatch, NodeView) {
    let h = lower_hex(sha3_256(packet_bytes(p)));
    if !checksum_matches(p) {
        (Dispatch::Invalid, n)
    } else if digests_of(n.hashes).contains(h) {
        (Dispatch::Duplicate, n)
    } else {
        (dispatch_of(p.command), NodeView { hashes: n.hashes.push((h, now)), ..n })
    }
}

/// A valid packet is handed on at most once: taken in a second time, at any
/// time, it is a duplicate and changes nothing.
pub proof fn lemma_second_receipt_is_duplicate(n: NodeView, p: PPacketView, t1: u64, t2: u64)
    requires
        checksum_matches(p),
    ensures
        receipt(receipt(n, p, t1).1, p, t2).0 == Dispatch::Duplicate,
        receipt(receipt(n, p, t1).1, p, t2).1 == receipt(n, p, t1).1,
{
    let h = lower_hex(sha3_256(packet_bytes(p)));
    if !digests_of(n.hashes).contains(h) {
        assert(digests_of(n.hashes.push((h, t1)))[n.hashes.len() as int] == h);
    }
}

/// The text that a message from the local application reads as: each byte
/// taken as the character of that code, with `'` turned into `"`.
pub open spec fn application_chars(bytes: Seq<u8>) -> Seq<char> {
    bytes.map_values(|b: u8| if b == 39 { '"' } else { (b as u32) as char })
}

/// Reading the application's bytes keeps their number and changes only the
/// quote `'`, which becomes `"`: every other byte becomes the character of
/// the same code (so a `"` stays a `"`).
pub proof fn lemma_application_chars(bytes: Seq<u8>)
    ensures
        application_chars(bytes).len() == bytes.len(),
        forall|i: int|
            0 <= i < bytes.len() && bytes[i] != 39 ==> (#[trigger] application_chars(bytes)[i]) as u32
                == bytes[i] as u32,
        forall|i: int|
            0 <= i < bytes.len() && bytes[i] == 39 ==> #[trigger] application_chars(bytes)[i]
                == '"',
        !application_chars(bytes).contains('\''),
{
    assert forall|i: int|
        0 <= i < bytes.len() && bytes[i] != 39 implies (#[trigger] application_chars(
        bytes,
    )[i]) as u32 == bytes[i] as u32 by {
        assert(((bytes[i] as u32) as char) as u32 == bytes[i] as u32);
    }
    assert forall|i: int| 0 <= i < application_chars(bytes).len() implies application_chars(
        bytes,
    )[i] != '\'' by {
        if bytes[i] != 39 {
            assert(((bytes[i] as u32) as char) as u32 == bytes[i] as u32);
        }
    }
}

/// Reads a message from the local application as text.
pub fn application_text(message: &[u8]) -> (s: String)
    ensures
        s@ == application_chars(message@),
{
    let mut s = String::new();
    let mut i: usize = 0;
    while i < message.len()
        invariant
            i <= message@.len(),
            s@ =~= application_chars(message@).subrange(0, i as int),
        decreases message@.len() - i,
    {
        let b = message[i];
        if b == 39 {
            s.push('"');
        } else {
            s.push(b as char);
        }
        i = i + 1;
    }
    s
}

/// The answer to the local application: "command does not exist" when its
/// message names no command, else "Message sent" for "sendMessage", "lol"
/// for "lol" and "Unknown command" for anything else.
pub fn application_reply(command: Option<&str>) -> (r: &'static str)
    ensures
        r@ == (match command {
            None => "command does not exist"@,
            Some(c) => if c@ == "sendMessage"@ {
                "Message sent"@
            } else if c@ == "lol"@ {
                "lol"@
            } else {
                "Unknown command"@
            },
        }),
{
    match command {
        None => "command does not exist",
        Some(c) => {
            if text_eq(c, "sendMessage") {
                "Message sent"
            } else if text_eq(c, "lol") {
                "lol"
            } else {
                "Unknown command"
            }
        },
    }
}

/// The answer to a message from the local application, when the message
/// is JSON: "command does not exist" when its member "command" is not an
/// object, else the answer for that member's text (see
/// `application_reply`). `None` when the message is not JSON.
pub fn application_answer(message: &[u8]) -> (r: Option<&'static str>)
    ensures
        match json_member(application_chars(message@), "command"@) {
            None => r is None,
            Some(m) => r is Some && r->0@ == (if !m.is_object {
                "command does not exist"@
            } else if m.shown == "sendMessage"@ {
                "Message sent"@
            } else if m.shown == "lol"@ {
                "lol"@
            } else {
                "Unknown command"@
            }),
        },
{
    let text = application_text(message);
    match read_json_member(text.as_str(), "command") {
        None => None,
        Some(m) => {
            if m.is_object {
                Some(application_reply(Some(m.shown.as_str())))
            } else {
                Some(application_reply(None))
            }
        },
    }
}

/// A connection request read from a packet's payload: the whole JSON value
/// and its members "ip" and "port".
pub struct ConnectionRequest {
    pub json: Json,
    pub ip: JsonMember,
    pub port: JsonMember,
}

/// Why a payload could not be read as a connection request.
#[derive(Debug, Clone, Copy, PartialEq, Eq, Structural)]
pub enum RequestError {
    /// The payload is not UTF-8.
    PayloadNotUtf8,
    /// The payload text is not JSON.
    PayloadNotJson,
}

/// Reads a connection request from a packet's payload: errors when the
/// payload is not UTF-8 JSON; no request unless both members "ip" and
/// "port" are objects; else the value and both members.
pub fn connection_request_peer(payload: &[u8]) -> (r: Result<
    Option<ConnectionRequest>,
    RequestError,
>)
    ensures
        !valid_utf8(payload@) ==> r == Err::<Option<ConnectionRequest>, RequestError>(
            RequestError::PayloadNotUtf8,
        ),
        valid_utf8(payload@) && !is_json(decode_utf8(payload@)) ==> r == Err::<
            Option<ConnectionRequest>,
            RequestError,
        >(RequestError::PayloadNotJson),
        valid_utf8(payload@) && is_json(decode_utf8(payload@)) ==> ({
            let text = decode_utf8(payload@);
            match r {
                Ok(None) => !(member(text, "ip"@).is_object && member(text, "port"@).is_object),
                Ok(Some(req)) => {
                    &&& member(text, "ip"@).is_object && member(text, "port"@).is_object
                    &&& json_dump(text) == Some(req.json@)
                    &&& req.ip@ == member(text, "ip"@)
                    &&& req.port@ == member(text, "port"@)
                },
                Err(_) => false,
            }
        }),
{
    let text = match utf8_text(payload) {
        None => return Err(RequestError::PayloadNotUtf8),
        Some(t) => t,
    };
    let json = match parse_json(text.as_str()) {
        None => return Err(RequestError::PayloadNotJson),
        Some(j) => j,
    };
    let ip = read_json_member(text.as_str(), "ip").unwrap();
    let port = read_json_member(text.as_str(), "port").unwrap();
    if ip.is_object && port.is_object {
        Ok(Some(ConnectionRequest { json, ip, port }))
    } else {
        Ok(None)
    }
}

/// The packet that passes a connection request on to other peers: command
/// 1, carrying the JSON text of the request.
pub fn bounce_packet(json: &Json) -> (p: PPacket)
    ensures
        p@ == packet_of(1, encode_utf8(json@)),
{
    let text = json.dump();
    PPacket::from_str(1, text.as_str())
}

/// The next step in handling a connection request.
#[derive(Debug, Clone, Copy, PartialEq, Eq, Structural)]
pub enum RequestAction {
    /// Ask the peer whether it still wants a connection.
    AskPeer,
    /// The peer declined: stop.
    Stop,
    /// Pass the request on to every connection, then connect to the peer.
    BounceAndConnect,
}

/// The rule for a connection request: with no answer yet, ask the peer when
/// the node has room, else go on; an answer (command 4) other than "true"
/// stops; any other reply goes on.
pub open spec fn request_rule(full: bool, answer: Option<PPacketView>) -> RequestAction {
    match answer {
        None => if full {
            RequestAction::BounceAndConnect
        } else {
            RequestAction::AskPeer
        },
        Some(a) => if a.command == 4 && a.payload != encode_utf8("true"@) {
            RequestAction::Stop
        } else {
            RequestAction::BounceAndConnect
        },
    }
}

/// A peer's answer decides a connection request: an answer that accepts
/// ("true") lets the request go on, one that declines ("false") stops it,
/// whether or not the asking node has room.
pub proof fn lemma_answer_decides(full: bool, accept: bool)
    ensures
        request_rule(
            full,
            Some(packet_of(4, encode_utf8(if accept { "true"@ } else { "false"@ }))),
        ) == (if accept {
            RequestAction::BounceAndConnect
        } else {
            RequestAction::Stop
        }),
{
    reveal_strlit("true");
    reveal_strlit("false");
    vstd::utf8::is_ascii_chars_encode_utf8("true"@);
    vstd::utf8::is_ascii_chars_encode_utf8("false"@);
    assert(vstd::utf8::is_ascii_chars("true"@));
    assert(vstd::utf8::is_ascii_chars("false"@));
    assert(encode_utf8("false"@).len() != encode_utf8("true"@).len());
}

/// What a node does with the first packet on a new connection.
pub enum InitialAction {
    /// A connection question: send this answer.
    Answer(PPacket),
    /// A connection request and the node has room: keep the connection.
    Accept,
    /// Anything else: nothing.
    Ignore,
}

impl Node {
    /// The next step for a connection request, given the peer's reply to
    /// the question, if one was asked.
    pub fn request_action(&self, answer: Option<&PPacket>) -> (a: RequestAction)
        ensures
            a == request_rule(
                self@.connections.len() >= crate::connections::CONNECTIONS_LEN,
                match answer {
                    Some(p) => Some(p@),
                    None => None,
                },
            ),
    {
        match answer {
            None => {
                if self.is_connections_full() {
                    RequestAction::BounceAndConnect
                } else {
                    RequestAction::AskPeer
                }
            },
            Some(p) => {
                if p.is_con_ans() && !p.get_ans() {
                    RequestAction::Stop
                } else {
                    RequestAction::BounceAndConnect
                }
            },
        }
    }

    /// What to do with the first packet of a new connection: answer a
    /// question with whether the node has room; accept a request when it
    /// has room; ignore the rest.
    pub fn initial_action(&self, packet: &PPacket) -> (a: InitialAction)
        ensures
            ({
                let full = self@.connections.len() >= crate::connections::CONNECTIONS_LEN;
                if packet.command == 3 {
                    a matches InitialAction::Answer(p) && p@ == packet_of(
                        4,
                        encode_utf8(if !full { "true"@ } else { "false"@ }),
                    )
                } else if packet.command == 1 && !full {
                    a is Accept
                } else {
                    a is Ignore
                }
            }),
    {
        let full = self.is_connections_full();
        if packet.is_con_ques() {
            InitialAction::Answer(PPacket::con_ans(!full))
        } else if packet.is_con_req() && !full {
            InitialAction::Accept
        } else {
            InitialAction::Ignore
        }
    }

    /// Takes in a packet received at time `now`: a packet whose checksum is
    /// wrong is dropped, as is one whose overall checksum was seen before;
    /// any other packet has its overall checksum recorded and is handed on
    /// by its command.
    pub fn receive_packet(&mut self, packet: &PPacket, now: u64) -> (d: Dispatch)
        ensures
            (d, final(self)@) == receipt(old(self)@, packet@, now),
            invariant_holds(final(self)@),
    {
        proof {
            use_type_invariant(&*self);
        }
        if !packet.is_valid() {
            return Dispatch::Invalid;
        }
        let h = packet.overall_checksum();
        if self.does_hash_exist(h.as_str()) {
            return Dispatch::Duplicate;
        }
        self.add_msg_hash(h.as_str(), now);
        if packet.command == 1 {
            Dispatch::ConnectionRequest
        } else if packet.command == 2 {
            Dispatch::PingPong
        } else if packet.command == 3 || packet.command == 4 {
            Dispatch::Reserved
        } else {
            Dispatch::UnknownCommand
        }
    }

    /// Answers a ping from the peer `peer_ip:peer_port` with a pong. For a
    /// pong, the peer's state is set with the text "Pong", which matches
    /// neither "ping" nor "pong" and so leaves the ping list as it is.
    pub fn handle_ping_pong(&mut self, packet: &PPacket, peer_ip: &str, peer_port: i64) -> (r:
        Option<PPacket>)
        ensures
            r is Some <==> (packet.command == 0 && packet.payload@ == ping_payload()),
            r matches Some(p) ==> p@ == packet_of(0, pong_payload()),
            final(self)@ == old(self)@,
            invariant_holds(final(self)@),
    {
        proof {
            use_type_invariant(&*self);
        }
        if packet.is_ping() {
            return Some(PPacket::pong());
        }
        if packet.is_pong() {
            let con = self.get_connection_with_add(peer_ip, peer_port);
            proof {
                reveal_strlit("Pong");
                reveal_strlit("ping");
                reveal_strlit("pong");
                assert("Pong"@[0] != "ping"@[0]);
                assert("Pong"@[0] != "pong"@[0]);
            }
            self.change_state(&con, "Pong");
        }
        None
    }
}

} // verus!
