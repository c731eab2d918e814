use crate::text::{
    lemma_without_keeps_others,    address_key, address_text, decimal_text, find_text, first_field, first_index, has_colon,
    lemma_address_fields, lemma_decimal_roundtrip, lemma_first_index, parse_i64, parsed_i64,
    second_field, split_address, text_eq, texts, without,
};
use vstd::prelude::*;

verus! {

/// How many peers a node keeps connections to.
pub const CONNECTIONS_LEN: usize = 8;

/// The port a node listens on unless told otherwise.
pub const DEFAULT_PORT: u64 = 8080;

/// A peer: its place in the connection table (-1 when it has none), its
/// address and its port.
#[derive(Clone, Debug)]
pub struct Connection {
    pub id: i32,
    pub ip: String,
    pub port: i64,
}

/// The digests in a sequence of digest entries.
pub open spec fn digests_of(entries: Seq<(Seq<char>, u64)>) -> Seq<Seq<char>> {
    entries.map_values(|e: (Seq<char>, u64)| e.0)
}

/// A peer as plain values.
pub struct ConnectionView {
    pub id: i32,
    pub ip: Seq<char>,
    pub port: i64,
}

impl View for Connection {
    type V = ConnectionView;

    open spec fn view(&self) -> ConnectionView {
        ConnectionView { id: self.id, ip: self.ip@, port: self.port }
    }
}

/// Whether an `ip:port` text can be read back as a peer: it holds a `:`, and
/// what follows up to the next `:` is a decimal `i64`.
pub open spec fn address_parses(k: Seq<char>) -> bool {
    has_colon(k) && parsed_i64(second_field(k)) is Some
}

/// The peer that an `ip:port` text names, under the given id.
pub open spec fn connection_from(k: Seq<char>, id: i32) -> ConnectionView {
    ConnectionView { id, ip: first_field(k), port: parsed_i64(second_field(k))->0 }
}

/// The peers that a table of `ip:port` texts names, each with its place in
/// the table as id.
pub open spec fn connections_of(keys: Seq<Seq<char>>) -> Seq<ConnectionView> {
    Seq::new(keys.len(), |i: int| connection_from(keys[i], i as i32))
}

/// Index of the first text at or after `i` whose first field is `ip` and
/// whose second field is the decimal text of `port`; `keys.len()` when there
/// is none.
pub open spec fn match_from(keys: Seq<Seq<char>>, ip: Seq<char>, port: int, i: int) -> int
    decreases keys.len() - i,
{
    if i >= keys.len() {
        keys.len() as int
    } else if first_field(keys[i]) == ip && second_field(keys[i]) == decimal_text(port) {
        i
    } else {
        match_from(keys, ip, port, i + 1)
    }
}

/// The ping list after a peer's state is set to `state`, and whether the
/// change took: "ping" adds a peer that was not pinged yet, "pong" takes a
/// peer out (and always takes); any other text changes nothing.
pub open spec fn state_after(pinged: Seq<Seq<char>>, key: Seq<char>, state: Seq<char>) -> (
    Seq<Seq<char>>,
    bool,
) {
    if state == "ping"@ {
        if pinged.contains(key) {
            (pinged, false)
        } else {
            (pinged.push(key), true)
        }
    } else if state == "pong"@ {
        (without(pinged, key), true)
    } else {
        (pinged, false)
    }
}

/// The outcome of pinging each peer, as plain values.
pub open spec fn outcomes_view(outcomes: Seq<(Connection, bool)>) -> Seq<(ConnectionView, bool)> {
    outcomes.map_values(|e: (Connection, bool)| (e.0@, e.1))
}

/// The `ip:port` texts of the peers that could not be reached.
pub open spec fn failed_keys(outcomes: Seq<(ConnectionView, bool)>) -> Set<Seq<char>> {
    Set::new(
        |x: Seq<char>|
            exists|i: int|
                0 <= i < outcomes.len() && !outcomes[i].1 && #[trigger] address_text(
                    outcomes[i].0.ip,
                    outcomes[i].0.port as int,
                ) == x,
    )
}

/// The table once the peers that could not be reached are disconnected.
pub open spec fn after_check(keys: Seq<Seq<char>>, outcomes: Seq<(ConnectionView, bool)>) -> Seq<
    Seq<char>,
> {
    keys.filter(|k: Seq<char>| !failed_keys(outcomes).contains(k))
}

/// Filtering keeps only elements of the sequence, keeps none twice when the
/// sequence has none twice, and never makes it longer.
pub proof fn lemma_filter_sub(s: Seq<Seq<char>>, p: spec_fn(Seq<char>) -> bool)
    ensures
        s.filter(p).len() <= s.len(),
        forall|i: int| 0 <= i < s.filter(p).len() ==> s.contains(#[trigger] s.filter(p)[i]),
        s.no_duplicates() ==> s.filter(p).no_duplicates(),
    decreases s.len(),
{
    reveal(Seq::filter);
    if s.len() > 0 {
        let r = s.drop_last();
        lemma_filter_sub(r, p);
        assert forall|i: int| 0 <= i < s.filter(p).len() implies s.contains(
            #[trigger] s.filter(p)[i],
        ) by {
            if i < r.filter(p).len() {
                let x = r.filter(p)[i];
                assert(r.contains(x));
                let j = choose|j: int| 0 <= j < r.len() && r[j] == x;
                assert(s[j] == x);
            } else {
                assert(s[s.len() - 1] == s.last());
            }
        }
        if s.no_duplicates() && p(s.last()) {
            assert(r.no_duplicates());
            assert forall|i: int| 0 <= i < r.filter(p).len() implies r.filter(p)[i] != s.last() by {
                let x = r.filter(p)[i];
                assert(r.contains(x));
                let j = choose|j: int| 0 <= j < r.len() && r[j] == x;
                assert(s[j] == x);
            }
        }
    }
}

/// The peers to send a connection request to: the connected peers when
/// there are any, else the starting addresses read as peers (with id 0).
pub open spec fn request_targets(n: NodeView) -> Seq<ConnectionView> {
    if n.connections.len() != 0 {
        connections_of(n.connections)
    } else {
        Seq::new(n.hardcoded.len(), |i: int| connection_from(n.hardcoded[i], 0))
    }
}

/// Why a connection was not added.
#[derive(Debug, Clone, Copy, PartialEq, Eq, Structural)]
pub enum ConnectionError {
    /// The peer is connected already.
    AlreadyExists,
    /// The node has all the connections it keeps.
    Full,
}

impl ConnectionError {
    /// The text of the error.
    pub fn message(&self) -> (s: &'static str)
        ensures
            s@ == (match self {
                ConnectionError::AlreadyExists => "Connection already exists!"@,
                ConnectionError::Full => "Connections are full!"@,
            }),
    {
        match self {
            ConnectionError::AlreadyExists => "Connection already exists!",
            ConnectionError::Full => "Connections are full!",
        }
    }
}

impl Connection {
    /// The peer that an `ip:port` text names, with id 0. The text must hold
    /// a `:` followed by a decimal `i64`.
    pub fn from_string(ipp: String) -> (c: Connection)
        requires
            address_parses(ipp@),
        ensures
            c@ == connection_from(ipp@, 0),
    {
        let (ip, port_text) = split_address(ipp.as_str());
        let port = parse_i64(port_text.unwrap().as_str()).unwrap();
        Connection { id: 0, ip, port }
    }
}

/// Whether an `ip:port` text reads back as a peer.
pub fn readable_address(k: &str) -> (r: bool)
    ensures
        r == address_parses(k@),
{
    let (_, port_text) = split_address(k);
    match port_text {
        None => false,
        Some(t) => parse_i64(t.as_str()).is_some(),
    }
}

/// The address of this node as peers see it.
pub fn get_my_ip() -> (s: String)
    ensures
        s@ == "127.0.0.1"@,
{
    "127.0.0.1".to_owned()
}

/// The state of a node: the peers it is connected to (as `ip:port` texts),
/// the peers that were pinged and have not answered, the digests of the
/// messages it has seen with the time it first saw each, its port, the
/// addresses it starts from, and whether it is one of those.
pub struct Node {
    cons: Vec<String>,
    ping_list: Vec<String>,
    msg_hashes: Vec<(String, u64)>,
    port: u64,
    hardcoded_list: Vec<String>,
    is_hardcode: bool,
}


/// The state of a node as plain values.
pub struct NodeView {
    /// The `ip:port` texts of the connected peers, in the order they came.
    pub connections: Seq<Seq<char>>,
    /// The `ip:port` texts of the peers pinged and not yet answered.
    pub pinged: Seq<Seq<char>>,
    /// The digests seen, each with the time it was first seen.
    pub hashes: Seq<(Seq<char>, u64)>,
    /// The port the node listens on.
    pub port: u64,
    /// The addresses the node starts from.
    pub hardcoded: Seq<Seq<char>>,
    /// Whether the node is one of the starting addresses.
    pub hardcode: bool,
}

impl View for Node {
    type V = NodeView;

    closed spec fn view(&self) -> NodeView {
        NodeView {
            connections: texts(self.cons@),
            pinged: texts(self.ping_list@),
            hashes: self.msg_hashes@.map_values(|e: (String, u64)| (e.0@, e.1)),
            port: self.port,
            hardcoded: texts(self.hardcoded_list@),
            hardcode: self.is_hardcode,
        }
    }
}

/// The facts that hold of every node: at most `CONNECTIONS_LEN`
/// connections, no peer twice, every connection text holding a `:`, no peer
/// pinged twice and no digest twice.
pub open spec fn invariant_holds(n: NodeView) -> bool {
    &&& n.connections.len() <= CONNECTIONS_LEN
    &&& n.connections.no_duplicates()
    &&& forall|i: int| 0 <= i < n.connections.len() ==> has_colon(#[trigger] n.connections[i])
    &&& n.pinged.no_duplicates()
    &&& digests_of(n.hashes).no_duplicates()
}

impl Node {
    #[verifier::type_invariant]
    pub(crate) open spec fn well_formed(self) -> bool {
        invariant_holds(self@)
    }

    /// A node with no connections, no pings, no digests and no starting
    /// addresses, on the default port, not one of the starting addresses.
    pub fn new() -> (n: Node)
        ensures
            n@ == (NodeView {
                connections: Seq::empty(),
                pinged: Seq::empty(),
                hashes: Seq::empty(),
                port: DEFAULT_PORT,
                hardcoded: Seq::empty(),
                hardcode: false,
            }),
            invariant_holds(n@),
    {
        let n = Node {
            cons: Vec::new(),
            ping_list: Vec::new(),
            msg_hashes: Vec::new(),
            port: DEFAULT_PORT,
            hardcoded_list: Vec::new(),
            is_hardcode: false,
        };
        assert(n@.connections =~= Seq::<Seq<char>>::empty());
        assert(n@.pinged =~= Seq::<Seq<char>>::empty());
        assert(n@.hashes =~= Seq::<(Seq<char>, u64)>::empty());
        assert(n@.hardcoded =~= Seq::<Seq<char>>::empty());
        n
    }

    /// Connects to the peer `ip:port`: refused when it is connected already,
    /// or else when the node has `CONNECTIONS_LEN` connections; otherwise
    /// the peer is added last.
    pub fn add_connection(&mut self, ip: &str, port: i64) -> (r: Result<(), ConnectionError>)
        ensures
            ({
                let key = address_text(ip@, port as int);
                if old(self)@.connections.contains(key) {
                    &&& r == Err::<(), ConnectionError>(ConnectionError::AlreadyExists)
                    &&& final(self)@ == old(self)@
                } else if old(self)@.connections.len() == CONNECTIONS_LEN {
                    &&& r == Err::<(), ConnectionError>(ConnectionError::Full)
                    &&& final(self)@ == old(self)@
                } else {
                    &&& r == Ok::<(), ConnectionError>(())
                    &&& final(self)@ == NodeView {
                        connections: old(self)@.connections.push(key),
                        ..old(self)@
                    }
                }
            }),
            invariant_holds(final(self)@),
    {
        proof {
            use_type_invariant(&*self);
        }
        let key = address_key(ip, port);
        let i = find_text(&self.cons, key.as_str());
        proof {
            lemma_first_index(self@.connections, key@);
        }
        if i < self.cons.len() {
            return Err(ConnectionError::AlreadyExists);
        }
        if self.cons.len() == CONNECTIONS_LEN {
            return Err(ConnectionError::Full);
        }
        let ghost old_keys = self@.connections;
        let mut cons: Vec<String> = Vec::new();
        std::mem::swap(&mut cons, &mut self.cons);
        proof {
            crate::text::lemma_address_has_colon(ip@, port as int);
        }
        cons.push(key);
        assert(texts(cons@) =~= old_keys.push(address_text(ip@, port as int)));
        self.cons = cons;
        proof {
            use_type_invariant(&*self);
        }
        Ok(())
    }

    /// The connected peers, each with its place in the table as id. Every
    /// connection text must read back as a peer.
    pub fn get_connections(&self) -> (v: Vec<Connection>)
        requires
            forall|i: int|
                0 <= i < self@.connections.len() ==> address_parses(#[trigger] self@.connections[i]),
        ensures
            v@.map_values(|c: Connection| c@) == connections_of(self@.connections),
    {
        proof {
            use_type_invariant(self);
        }
        let mut v: Vec<Connection> = Vec::new();
        let mut i: usize = 0;
        while i < self.cons.len()
            invariant
                i <= self.cons@.len(),
                self.cons@.len() <= CONNECTIONS_LEN,
                forall|j: int|
                    0 <= j < self@.connections.len() ==> address_parses(
                        #[trigger] self@.connections[j],
                    ),
                v@.len() == i,
                v@.map_values(|c: Connection| c@) =~= connections_of(self@.connections).subrange(
                    0,
                    i as int,
                ),
            decreases self.cons@.len() - i,
        {
            assert(address_parses(self@.connections[i as int]));
            assert(self@.connections[i as int] == self.cons@[i as int]@);
            let (ip, port_text) = split_address(self.cons[i].as_str());
            let port = parse_i64(port_text.unwrap().as_str()).unwrap();
            let c = Connection { id: i as i32, ip, port };
            assert(c@ == connection_from(self@.connections[i as int], i as i32));
            v.push(c);
            i = i + 1;
            assert(v@.map_values(|c: Connection| c@) =~= connections_of(self@.connections).subrange(
                0,
                i as int,
            ));
        }
        v
    }

    /// Whether every connection text reads back as a peer.
    pub fn connections_readable(&self) -> (r: bool)
        ensures
            r == forall|i: int|
                0 <= i < self@.connections.len() ==> address_parses(#[trigger] self@.connections[i]),
    {
        let mut i: usize = 0;
        while i < self.cons.len()
            invariant
                i <= self.cons@.len(),
                forall|j: int| 0 <= j < i ==> address_parses(#[trigger] self@.connections[j]),
            decreases self.cons@.len() - i,
        {
            if !readable_address(self.cons[i].as_str()) {
                assert(!address_parses(self@.connections[i as int]));
                return false;
            }
            i = i + 1;
        }
        true
    }

    /// Whether every starting address reads back as a peer.
    pub fn hardcoded_readable(&self) -> (r: bool)
        ensures
            r == forall|i: int|
                0 <= i < self@.hardcoded.len() ==> address_parses(#[trigger] self@.hardcoded[i]),
    {
        let mut i: usize = 0;
        while i < self.hardcoded_list.len()
            invariant
                i <= self.hardcoded_list@.len(),
                forall|j: int| 0 <= j < i ==> address_parses(#[trigger] self@.hardcoded[j]),
            decreases self.hardcoded_list@.len() - i,
        {
            if !readable_address(self.hardcoded_list[i].as_str()) {
                assert(!address_parses(self@.hardcoded[i as int]));
                return false;
            }
            i = i + 1;
        }
        true
    }

    /// How many peers are connected.
    pub fn get_connections_len(&self) -> (n: i32)
        ensures
            n == self@.connections.len(),
    {
        proof {
            use_type_invariant(self);
        }
        self.cons.len() as i32
    }

    /// Whether the node has all the connections it keeps.
    pub fn is_connections_full(&self) -> (r: bool)
        ensures
            r == (self@.connections.len() >= CONNECTIONS_LEN),
    {
        self.cons.len() >= CONNECTIONS_LEN
    }

    /// The peer at place `n` of the table. There must be one, and its text
    /// must read back as a peer.
    pub fn get_nth_connection(&self, n: i32) -> (c: Connection)
        requires
            0 <= n < self@.connections.len(),
            address_parses(self@.connections[n as int]),
        ensures
            c@ == connection_from(self@.connections[n as int], n),
    {
        let (ip, port_text) = split_address(self.cons[n as usize].as_str());
        let port = parse_i64(port_text.unwrap().as_str()).unwrap();
        Connection { id: n, ip, port }
    }

    /// The peer `ip:port` with its place in the table as id: the first
    /// connection whose address field is `ip` and whose port field is the
    /// decimal text of `port`; id -1 when there is none.
    pub fn get_connection_with_add(&self, ip: &str, port: i64) -> (c: Connection)
        ensures
            c@.ip == ip@,
            c@.port == port,
            c@.id == (if match_from(self@.connections, ip@, port as int, 0)
                < self@.connections.len() {
                match_from(self@.connections, ip@, port as int, 0) as i32
            } else {
                -1i32
            }),
    {
        proof {
            use_type_invariant(self);
        }
        let port_text = crate::text::decimal_string(port);
        let mut i: usize = 0;
        while i < self.cons.len()
            invariant
                i <= self.cons@.len(),
                self.cons@.len() <= CONNECTIONS_LEN,
                port_text@ == decimal_text(port as int),
                forall|j: int|
                    0 <= j < self@.connections.len() ==> has_colon(#[trigger] self@.connections[j]),
                match_from(self@.connections, ip@, port as int, 0) == match_from(
                    self@.connections,
                    ip@,
                    port as int,
                    i as int,
                ),
            decreases self.cons@.len() - i,
        {
            let (ip_, port_) = split_address(self.cons[i].as_str());
            assert(has_colon(self@.connections[i as int]));
            assert(self@.connections[i as int] == self.cons@[i as int]@);
            let port_ = port_.unwrap();
            if text_eq(ip_.as_str(), ip) && text_eq(port_.as_str(), port_text.as_str()) {
                return Connection { id: i as i32, ip: ip.to_owned(), port };
            }
            i = i + 1;
        }
        Connection { id: -1, ip: ip.to_owned(), port }
    }

    /// Disconnects the peer `ip:port`.
    pub fn remove_connection(&mut self, ip: &str, port: i64)
        ensures
            final(self)@ == (NodeView {
                connections: without(old(self)@.connections, address_text(ip@, port as int)),
                ..old(self)@
            }),
            invariant_holds(final(self)@),
    {
        proof {
            use_type_invariant(&*self);
        }
        let key = address_key(ip, port);
        let i = find_text(&self.cons, key.as_str());
        proof {
            lemma_first_index(self@.connections, key@);
        }
        if i < self.cons.len() {
            let ghost old_keys = self@.connections;
            let mut cons: Vec<String> = Vec::new();
            std::mem::swap(&mut cons, &mut self.cons);
            cons.remove(i);
            assert(texts(cons@) =~= old_keys.remove(i as int));
            self.cons = cons;
        }
        proof {
            use_type_invariant(&*self);
        }
    }

    /// Sets the state of the peer `con` in the ping list: "ping" marks a
    /// peer not yet pinged and says `true` (`false`, with no change, when it
    /// was pinged already); "pong" clears the mark and says `true`; any other
    /// text, case included, changes nothing and says `false`.
    pub fn change_state(&mut self, con: &Connection, state: &str) -> (r: bool)
        ensures
            ({
                let after = state_after(
                    old(self)@.pinged,
                    address_text(con.ip@, con.port as int),
                    state@,
                );
                &&& r == after.1
                &&& final(self)@ == NodeView { pinged: after.0, ..old(self)@ }
            }),
            invariant_holds(final(self)@),
    {
        proof {
            use_type_invariant(&*self);
        }
        let key = address_key(con.ip.as_str(), con.port);
        let i = find_text(&self.ping_list, key.as_str());
        proof {
            lemma_first_index(self@.pinged, key@);
        }
        let ghost old_pinged = self@.pinged;
        if text_eq(state, "ping") {
            if i == self.ping_list.len() {
                let mut pings: Vec<String> = Vec::new();
                std::mem::swap(&mut pings, &mut self.ping_list);
                pings.push(key);
                assert(texts(pings@) =~= old_pinged.push(address_text(con.ip@, con.port as int)));
                self.ping_list = pings;
                proof {
                    use_type_invariant(&*self);
                }
                return true;
            }
        } else if text_eq(state, "pong") {
            if i < self.ping_list.len() {
                let mut pings: Vec<String> = Vec::new();
                std::mem::swap(&mut pings, &mut self.ping_list);
                pings.remove(i);
                assert(texts(pings@) =~= old_pinged.remove(i as int));
                self.ping_list = pings;
            }
            proof {
                use_type_invariant(&*self);
            }
            return true;
        }
        false
    }

    /// "Ping" while the peer `con` is pinged and has not answered, "Pong"
    /// otherwise.
    pub fn get_state(&self, con: &Connection) -> (s: String)
        ensures
            s@ == (if self@.pinged.contains(address_text(con.ip@, con.port as int)) {
                "Ping"@
            } else {
                "Pong"@
            }),
    {
        let key = address_key(con.ip.as_str(), con.port);
        let i = find_text(&self.ping_list, key.as_str());
        proof {
            lemma_first_index(self@.pinged, key@);
        }
        if i < self.ping_list.len() {
            "Ping".to_owned()
        } else {
            "Pong".to_owned()
        }
    }

    /// Disconnects the peers that could not be reached: each entry of
    /// `outcomes` is a peer and whether it answered a ping; every peer that
    /// did not is disconnected by its address and port, as
    /// `remove_connection` does.
    pub fn check_connections(&mut self, outcomes: &[(Connection, bool)])
        ensures
            final(self)@ == (NodeView {
                connections: after_check(old(self)@.connections, outcomes_view(outcomes@)),
                ..old(self)@
            }),
            invariant_holds(final(self)@),
    {
        proof {
            use_type_invariant(&*self);
        }
        let ghost keys = self@.connections;
        let ghost outs = outcomes_view(outcomes@);
        let mut dropped: Vec<String> = Vec::new();
        let mut i: usize = 0;
        while i < outcomes.len()
            invariant
                i <= outcomes@.len(),
                outs == outcomes_view(outcomes@),
                forall|x: Seq<char>|
                    texts(dropped@).contains(x) <==> exists|j: int|
                        0 <= j < i && !outs[j].1 && #[trigger] address_text(
                            outs[j].0.ip,
                            outs[j].0.port as int,
                        ) == x,
            decreases outcomes@.len() - i,
        {
            assert(outs[i as int] == (outcomes@[i as int].0@, outcomes@[i as int].1));
            if !outcomes[i].1 {
                let key = address_key(outcomes[i].0.ip.as_str(), outcomes[i].0.port);
                let ghost new_key = address_text(outs[i as int].0.ip, outs[i as int].0.port as int);
                let ghost before = texts(dropped@);
                dropped.push(key);
                assert(texts(dropped@) =~= before.push(new_key));
                assert forall|x: Seq<char>| texts(dropped@).contains(x) <==> exists|j: int|
                    0 <= j < i + 1 && !outs[j].1 && #[trigger] address_text(
                        outs[j].0.ip,
                        outs[j].0.port as int,
                    ) == x by {
                    if texts(dropped@).contains(x) {
                        let k = choose|k: int|
                            0 <= k < texts(dropped@).len() && texts(dropped@)[k] == x;
                        if k < before.len() {
                            assert(before[k] == x);
                            assert(before.contains(x));
                        } else {
                            assert(new_key == x);
                        }
                    }
                    if exists|j: int|
                        0 <= j < i + 1 && !outs[j].1 && #[trigger] address_text(
                            outs[j].0.ip,
                            outs[j].0.port as int,
                        ) == x {
                        let j = choose|j: int|
                            0 <= j < i + 1 && !outs[j].1 && #[trigger] address_text(
                                outs[j].0.ip,
                                outs[j].0.port as int,
                            ) == x;
                        if j < i {
                            assert(before.contains(x));
                            let k = choose|k: int| 0 <= k < before.len() && before[k] == x;
                            assert(texts(dropped@)[k] == x);
                        } else {
                            assert(texts(dropped@)[before.len() as int] == x);
                        }
                    }
                }
            }
            i = i + 1;
        }
        let ghost fails = failed_keys(outs);
        let ghost pred = |k: Seq<char>| !fails.contains(k);
        assert forall|x: Seq<char>| texts(dropped@).contains(x) <==> fails.contains(x) by {}
        let mut kept: Vec<String> = Vec::new();
        let mut m: usize = 0;
        while m < self.cons.len()
            invariant
                m <= self.cons@.len(),
                keys == texts(self.cons@),
                forall|x: Seq<char>| texts(dropped@).contains(x) <==> fails.contains(x),
                pred == (|k: Seq<char>| !fails.contains(k)),
                texts(kept@) == keys.subrange(0, m as int).filter(pred),
            decreases self.cons@.len() - m,
        {
            let j = find_text(&dropped, self.cons[m].as_str());
            proof {
                lemma_first_index(texts(dropped@), self.cons@[m as int]@);
                reveal(Seq::filter);
                assert(keys.subrange(0, m + 1).drop_last() =~= keys.subrange(0, m as int));
                assert(keys.subrange(0, m + 1).last() == self.cons@[m as int]@);
            }
            if j == dropped.len() {
                let ghost before = texts(kept@);
                kept.push(self.cons[m].clone());
                assert(texts(kept@) =~= before.push(self.cons@[m as int]@));
            }
            m = m + 1;
        }
        assert(keys.subrange(0, keys.len() as int) =~= keys);
        proof {
            lemma_filter_sub(keys, pred);
            assert forall|k: int| 0 <= k < texts(kept@).len() implies has_colon(
                #[trigger] texts(kept@)[k],
            ) by {
                let x = texts(kept@)[k];
                assert(keys.contains(x));
                let q = choose|q: int| 0 <= q < keys.len() && keys[q] == x;
                assert(has_colon(keys[q]));
            }
        }
        self.cons = kept;
        proof {
            use_type_invariant(&*self);
        }
    }

    /// The peers that a connection request goes to: the connected peers
    /// when there are any, else the starting addresses. The texts used must
    /// read back as peers.
    pub fn connection_request_targets(&self) -> (v: Vec<Connection>)
        requires
            forall|i: int|
                0 <= i < self@.connections.len() ==> address_parses(#[trigger] self@.connections[i]),
            self@.connections.len() == 0 ==> forall|i: int|
                0 <= i < self@.hardcoded.len() ==> address_parses(#[trigger] self@.hardcoded[i]),
        ensures
            v@.map_values(|c: Connection| c@) == request_targets(self@),
    {
        if self.cons.len() != 0 {
            return self.get_connections();
        }
        let mut v: Vec<Connection> = Vec::new();
        let mut i: usize = 0;
        while i < self.hardcoded_list.len()
            invariant
                i <= self.hardcoded_list@.len(),
                self@.connections.len() == 0,
                forall|j: int|
                    0 <= j < self@.hardcoded.len() ==> address_parses(#[trigger] self@.hardcoded[j]),
                v@.len() == i,
                v@.map_values(|c: Connection| c@) =~= request_targets(self@).subrange(0, i as int),
            decreases self.hardcoded_list@.len() - i,
        {
            assert(address_parses(self@.hardcoded[i as int]));
            assert(self@.hardcoded[i as int] == self.hardcoded_list@[i as int]@);
            let c = Connection::from_string(self.hardcoded_list[i].clone());
            v.push(c);
            i = i + 1;
            assert(v@.map_values(|c: Connection| c@) =~= request_targets(self@).subrange(
                0,
                i as int,
            ));
        }
        assert(request_targets(self@).subrange(0, i as int) =~= request_targets(self@));
        v
    }

    /// Whether the node should ask for more connections: it has fewer than
    /// `CONNECTIONS_LEN` and is not one of the starting addresses.
    pub fn needs_more_connections(&self) -> (r: bool)
        ensures
            r == (self@.connections.len() < CONNECTIONS_LEN && !self@.hardcode),
    {
        self.cons.len() < CONNECTIONS_LEN && !self.is_hardcode
    }

    /// Adds the given addresses to the starting addresses, in order.
    pub fn add_hardcoded_servers(&mut self, addresses: Vec<String>)
        ensures
            final(self)@ == (NodeView {
                hardcoded: old(self)@.hardcoded + texts(addresses@),
                ..old(self)@
            }),
            invariant_holds(final(self)@),
    {
        proof {
            use_type_invariant(&*self);
        }
        let mut list: Vec<String> = Vec::new();
        std::mem::swap(&mut list, &mut self.hardcoded_list);
        let mut more = addresses;
        let ghost old_list = texts(list@);
        let ghost added = texts(more@);
        list.append(&mut more);
        assert(texts(list@) =~= old_list + added);
        self.hardcoded_list = list;
    }

    /// The starting addresses.
    pub fn get_hardcoded_servers(&self) -> (v: Vec<String>)
        ensures
            texts(v@) == self@.hardcoded,
    {
        let mut v: Vec<String> = Vec::new();
        let mut i: usize = 0;
        while i < self.hardcoded_list.len()
            invariant
                i <= self.hardcoded_list@.len(),
                v@.len() == i,
                texts(v@) =~= self@.hardcoded.subrange(0, i as int),
            decreases self.hardcoded_list@.len() - i,
        {
            v.push(self.hardcoded_list[i].clone());
            i = i + 1;
            assert(texts(v@) =~= self@.hardcoded.subrange(0, i as int));
        }
        v
    }

    /// The port this node listens on.
    pub fn get_my_port(&self) -> (p: u64)
        ensures
            p == self@.port,
    {
        self.port
    }

    /// Sets the port this node listens on.
    pub fn set_port(&mut self, port: u64)
        ensures
            final(self)@ == (NodeView { port, ..old(self)@ }),
            invariant_holds(final(self)@),
    {
        proof {
            use_type_invariant(&*self);
        }
        self.port = port;
    }

    /// Whether this node is one of the starting addresses.
    pub fn is_hardcode(&self) -> (r: bool)
        ensures
            r == self@.hardcode,
    {
        self.is_hardcode
    }

    /// Sets whether this node is one of the starting addresses.
    pub fn set_hardcode(&mut self, hardcode: bool)
        ensures
            final(self)@ == (NodeView { hardcode, ..old(self)@ }),
            invariant_holds(final(self)@),
    {
        proof {
            use_type_invariant(&*self);
        }
        self.is_hardcode = hardcode;
    }
}

/// The digest table once every entry first seen before `now` is dropped.
pub open spec fn fresh_hashes(entries: Seq<(Seq<char>, u64)>, now: u64) -> Seq<(Seq<char>, u64)> {
    entries.filter(|e: (Seq<char>, u64)| e.1 >= now)
}

/// Filtering keeps only entries of the table, keeps no digest twice when
/// the table has none twice, and never makes the table longer.
pub proof fn lemma_filter_entries(s: Seq<(Seq<char>, u64)>, p: spec_fn((Seq<char>, u64)) -> bool)
    ensures
        s.filter(p).len() <= s.len(),
        forall|i: int| 0 <= i < s.filter(p).len() ==> s.contains(#[trigger] s.filter(p)[i]),
        digests_of(s).no_duplicates() ==> digests_of(s.filter(p)).no_duplicates(),
    decreases s.len(),
{
    reveal(Seq::filter);
    if s.len() > 0 {
        let r = s.drop_last();
        lemma_filter_entries(r, p);
        assert forall|i: int| 0 <= i < s.filter(p).len() implies s.contains(
            #[trigger] s.filter(p)[i],
        ) by {
            if i < r.filter(p).len() {
                let x = r.filter(p)[i];
                assert(r.contains(x));
                let j = choose|j: int| 0 <= j < r.len() && r[j] == x;
                assert(s[j] == x);
            } else {
                assert(s[s.len() - 1] == s.last());
            }
        }
        if digests_of(s).no_duplicates() {
            assert(digests_of(r) =~= digests_of(s).drop_last());
            assert(digests_of(r).no_duplicates());
            if p(s.last()) {
                assert(s.filter(p) =~= r.filter(p).push(s.last()));
                assert forall|i: int| 0 <= i < r.filter(p).len() implies r.filter(p)[i].0 != s.last().0 by {
                    let x = r.filter(p)[i];
                    assert(r.contains(x));
                    let j = choose|j: int| 0 <= j < r.len() && r[j] == x;
                    assert(digests_of(s)[j] == x.0);
                    assert(digests_of(s)[s.len() - 1] == s.last().0);
                }
                assert(digests_of(s.filter(p)) =~= digests_of(r.filter(p)).push(s.last().0));
            } else {
                assert(s.filter(p) =~= r.filter(p));
            }
        }
    }
}

impl Node {
    /// Whether the digest `hash` was seen.
    pub fn does_hash_exist(&self, hash: &str) -> (r: bool)
        ensures
            r == digests_of(self@.hashes).contains(hash@),
    {
        let target = hash.to_owned();
        let mut i: usize = 0;
        while i < self.msg_hashes.len()
            invariant
                i <= self.msg_hashes@.len(),
                target@ == hash@,
                forall|k: int| 0 <= k < i ==> digests_of(self@.hashes)[k] != hash@,
            decreases self.msg_hashes@.len() - i,
        {
            if self.msg_hashes[i].0 == target {
                assert(digests_of(self@.hashes)[i as int] == hash@);
                return true;
            }
            i = i + 1;
        }
        false
    }

    /// Records the digest `hash` as seen at time `now`, unless it was seen
    /// already (the first time is kept).
    pub fn add_msg_hash(&mut self, hash: &str, now: u64)
        ensures
            final(self)@ == (if digests_of(old(self)@.hashes).contains(hash@) {
                old(self)@
            } else {
                NodeView { hashes: old(self)@.hashes.push((hash@, now)), ..old(self)@ }
            }),
            invariant_holds(final(self)@),
    {
        proof {
            use_type_invariant(&*self);
        }
        if self.does_hash_exist(hash) {
            return;
        }
        let ghost old_hashes = self@.hashes;
        let mut hashes: Vec<(String, u64)> = Vec::new();
        std::mem::swap(&mut hashes, &mut self.msg_hashes);
        hashes.push((hash.to_owned(), now));
        assert(hashes@.map_values(|e: (String, u64)| (e.0@, e.1)) =~= old_hashes.push((hash@, now)));
        assert(digests_of(old_hashes.push((hash@, now))) =~= digests_of(old_hashes).push(hash@));
        self.msg_hashes = hashes;
        proof {
            use_type_invariant(&*self);
        }
    }

    /// Drops every digest first seen before `now`.
    pub fn remove_hashes(&mut self, now: u64)
        ensures
            final(self)@ == (NodeView { hashes: fresh_hashes(old(self)@.hashes, now), ..old(self)@ }),
            invariant_holds(final(self)@),
    {
        proof {
            use_type_invariant(&*self);
        }
        let ghost entries = self@.hashes;
        let ghost pred = |e: (Seq<char>, u64)| e.1 >= now;
        let mut kept: Vec<(String, u64)> = Vec::new();
        let mut i: usize = 0;
        while i < self.msg_hashes.len()
            invariant
                i <= self.msg_hashes@.len(),
                entries == self.msg_hashes@.map_values(|e: (String, u64)| (e.0@, e.1)),
                pred == (|e: (Seq<char>, u64)| e.1 >= now),
                kept@.map_values(|e: (String, u64)| (e.0@, e.1)) == entries.subrange(0, i as int).filter(pred),
            decreases self.msg_hashes@.len() - i,
        {
            proof {
                reveal(Seq::filter);
                assert(entries.subrange(0, i + 1).drop_last() =~= entries.subrange(0, i as int));
                assert(entries.subrange(0, i + 1).last() == entries[i as int]);
            }
            if self.msg_hashes[i].1 >= now {
                let ghost before = kept@.map_values(|e: (String, u64)| (e.0@, e.1));
                let e = (self.msg_hashes[i].0.clone(), self.msg_hashes[i].1);
                kept.push(e);
                assert(kept@.map_values(|e: (String, u64)| (e.0@, e.1)) =~= before.push(entries[i as int]));
            }
            i = i + 1;
        }
        assert(entries.subrange(0, entries.len() as int) =~= entries);
        proof {
            lemma_filter_entries(entries, pred);
        }
        self.msg_hashes = kept;
        proof {
            use_type_invariant(&*self);
        }
    }
}

/// A peer written as `ip:port` reads back as the same peer when its address
/// holds no `:`.
pub proof fn lemma_address_roundtrip(ip: Seq<char>, port: i64, id: i32)
    requires
        !ip.contains(':'),
    ensures
        address_parses(address_text(ip, port as int)),
        connection_from(address_text(ip, port as int), id) == (ConnectionView { id, ip, port }),
{
    lemma_address_fields(ip, port as int);
    lemma_decimal_roundtrip(port);
}

/// Disconnecting a peer right after connecting it gives back the table as
/// it was.
pub proof fn lemma_add_then_remove(keys: Seq<Seq<char>>, key: Seq<char>)
    requires
        !keys.contains(key),
    ensures
        without(keys.push(key), key) == keys,
{
    let s = keys.push(key);
    assert(s[keys.len() as int] == key);
    lemma_first_index(s, key);
    assert(first_index(s, key) == keys.len()) by {
        if first_index(s, key) < keys.len() {
            assert(keys[first_index(s, key)] == key);
        }
    }
    assert(s.remove(keys.len() as int) =~= keys);
}

proof fn lemma_match_from_bound(keys: Seq<Seq<char>>, ip: Seq<char>, port: int, i: int, m: int)
    requires
        0 <= i <= m < keys.len(),
        first_field(keys[m]) == ip,
        second_field(keys[m]) == decimal_text(port),
    ensures
        match_from(keys, ip, port, i) <= m,
    decreases m - i,
{
    if i < m && !(first_field(keys[i]) == ip && second_field(keys[i]) == decimal_text(port)) {
        lemma_match_from_bound(keys, ip, port, i + 1, m);
    }
}

/// Once a peer whose address holds no `:` is connected, looking it up by
/// address and port finds a place in the table (its own, or an earlier one
/// with the same fields).
pub proof fn lemma_connected_peer_found(keys: Seq<Seq<char>>, ip: Seq<char>, port: i64)
    requires
        !ip.contains(':'),
    ensures
        match_from(keys.push(address_text(ip, port as int)), ip, port as int, 0) <= keys.len(),
{
    lemma_address_fields(ip, port as int);
    let s = keys.push(address_text(ip, port as int));
    lemma_match_from_bound(s, ip, port as int, 0, keys.len() as int);
}

/// A peer marked by "ping" is pinged, a second "ping" does not take, and a
/// "pong" clears the mark.
pub proof fn lemma_ping_then_pong(pinged: Seq<Seq<char>>, key: Seq<char>)
    requires
        pinged.no_duplicates(),
    ensures
        state_after(pinged, key, "ping"@).0.contains(key),
        !state_after(state_after(pinged, key, "ping"@).0, key, "ping"@).1,
        !state_after(pinged, key, "pong"@).0.contains(key),
        state_after(pinged, key, "pong"@).1,
{
    reveal_strlit("ping");
    reveal_strlit("pong");
    assert("ping"@ != "pong"@) by {
        assert("ping"@[1] != "pong"@[1]);
    }
    if !pinged.contains(key) {
        assert(pinged.push(key)[pinged.len() as int] == key);
    }
    lemma_first_index(pinged, key);
    if pinged.contains(key) {
        let i = first_index(pinged, key);
        let r = pinged.remove(i);
        assert forall|k: int| 0 <= k < r.len() implies r[k] != key by {
            if k < i {
                assert(r[k] == pinged[k]);
            } else {
                assert(r[k] == pinged[k + 1]);
            }
        }
    }
}

/// A digest recorded as seen is known as seen afterwards.
pub proof fn lemma_hash_recorded(entries: Seq<(Seq<char>, u64)>, hash: Seq<char>, now: u64)
    ensures
        digests_of(
            if digests_of(entries).contains(hash) {
                entries
            } else {
                entries.push((hash, now))
            },
        ).contains(hash),
{
    if !digests_of(entries).contains(hash) {
        assert(digests_of(entries.push((hash, now)))[entries.len() as int] == hash);
    }
}

/// Dropping old digests keeps exactly the entries first seen at `now` or
/// later.
pub proof fn lemma_fresh_hashes(entries: Seq<(Seq<char>, u64)>, now: u64)
    ensures
        forall|i: int|
            0 <= i < fresh_hashes(entries, now).len() ==> #[trigger] fresh_hashes(entries, now)[i].1
                >= now,
        forall|i: int|
            0 <= i < entries.len() && entries[i].1 >= now ==> fresh_hashes(entries, now).contains(
                #[trigger] entries[i],
            ),
        forall|i: int|
            0 <= i < fresh_hashes(entries, now).len() ==> entries.contains(
                #[trigger] fresh_hashes(entries, now)[i],
            ),
{
    let p = |e: (Seq<char>, u64)| e.1 >= now;
    broadcast use vstd::seq_lib::group_filter_ensures;
    lemma_filter_entries(entries, p);
    assert forall|i: int| 0 <= i < fresh_hashes(entries, now).len() implies #[trigger] fresh_hashes(
        entries,
        now,
    )[i].1 >= now by {
        entries.lemma_filter_pred(p, i);
    }
    assert forall|i: int|
        0 <= i < entries.len() && entries[i].1 >= now implies fresh_hashes(entries, now).contains(
        #[trigger] entries[i],
    ) by {
        entries.lemma_filter_contains(p, i);
    }
}

/// When every peer answered, the check leaves the table as it is.
pub proof fn lemma_check_all_reachable(keys: Seq<Seq<char>>, outcomes: Seq<(ConnectionView, bool)>)
    requires
        forall|i: int| 0 <= i < outcomes.len() ==> outcomes[i].1,
    ensures
        after_check(keys, outcomes) == keys,
{
    let fails = failed_keys(outcomes);
    assert(fails =~= Set::<Seq<char>>::empty());
    lemma_filter_all(keys, |k: Seq<char>| !fails.contains(k));
}

proof fn lemma_filter_all(s: Seq<Seq<char>>, p: spec_fn(Seq<char>) -> bool)
    requires
        forall|i: int| 0 <= i < s.len() ==> p(s[i]),
    ensures
        s.filter(p) == s,
    decreases s.len(),
{
    reveal(Seq::filter);
    if s.len() > 0 {
        lemma_filter_all(s.drop_last(), p);
        assert(s.drop_last().push(s.last()) =~= s);
    }
}

/// A peer that did not answer is no longer connected after the check.
pub proof fn lemma_check_drops_unreachable(
    keys: Seq<Seq<char>>,
    outcomes: Seq<(ConnectionView, bool)>,
    i: int,
)
    requires
        0 <= i < outcomes.len(),
        !outcomes[i].1,
    ensures
        !after_check(keys, outcomes).contains(
            address_text(outcomes[i].0.ip, outcomes[i].0.port as int),
        ),
{
    let fails = failed_keys(outcomes);
    let p = |k: Seq<char>| !fails.contains(k);
    let key = address_text(outcomes[i].0.ip, outcomes[i].0.port as int);
    assert(fails.contains(key));
    if after_check(keys, outcomes).contains(key) {
        let j = choose|j: int| 0 <= j < keys.filter(p).len() && keys.filter(p)[j] == key;
        keys.lemma_filter_pred(p, j);
    }
}

/// Removing a peer from the table disconnects that peer and no other:
/// every other text stays, the table is one entry shorter when the peer was
/// there, and unchanged when it was not.
pub proof fn lemma_remove_connection_keeps_others(keys: Seq<Seq<char>>, ip: Seq<char>, port: int)
    requires
        keys.no_duplicates(),
    ensures
        forall|k: Seq<char>|
            k != address_text(ip, port) ==> (without(keys, address_text(ip, port)).contains(k)
                <==> keys.contains(k)),
        !without(keys, address_text(ip, port)).contains(address_text(ip, port)),
        keys.contains(address_text(ip, port)) ==> without(keys, address_text(ip, port)).len()
            == keys.len() - 1,
        !keys.contains(address_text(ip, port)) ==> without(keys, address_text(ip, port)) == keys,
{
    lemma_without_keeps_others(keys, address_text(ip, port));
}

/// A "pong" for one peer clears that peer's mark and leaves every other
/// peer's mark as it was; a "ping" marks the peer and leaves the others.
pub proof fn lemma_pong_keeps_other_peers(pinged: Seq<Seq<char>>, key: Seq<char>)
    requires
        pinged.no_duplicates(),
    ensures
        forall|k: Seq<char>|
            k != key ==> (state_after(pinged, key, "pong"@).0.contains(k) <==> pinged.contains(k)),
        !state_after(pinged, key, "pong"@).0.contains(key),
        forall|k: Seq<char>|
            k != key ==> (state_after(pinged, key, "ping"@).0.contains(k) <==> pinged.contains(k)),
        state_after(pinged, key, "ping"@).0.contains(key),
{
    reveal_strlit("ping");
    reveal_strlit("pong");
    assert("ping"@ != "pong"@) by {
        assert("ping"@[1] != "pong"@[1]);
    }
    lemma_without_keeps_others(pinged, key);
    let p = pinged.push(key);
    assert forall|k: Seq<char>| k != key implies (p.contains(k) <==> pinged.contains(k)) by {
        if p.contains(k) {
            let j = choose|j: int| 0 <= j < p.len() && p[j] == k;
            assert(j < pinged.len());
            assert(pinged[j] == k);
        }
        if pinged.contains(k) {
            let j = choose|j: int| 0 <= j < pinged.len() && pinged[j] == k;
            assert(p[j] == k);
        }
    }
    if !pinged.contains(key) {
        assert(p[pinged.len() as int] == key);
    }
}

/// Looking a peer up by address and port finds an entry whose address field
/// is that address and whose port field is that port's decimal text, and no
/// earlier entry has both; when it finds none, no entry has both.
pub proof fn lemma_lookup_matches_address_and_port(keys: Seq<Seq<char>>, ip: Seq<char>, port: int)
    ensures
        0 <= match_from(keys, ip, port, 0) <= keys.len(),
        match_from(keys, ip, port, 0) < keys.len() ==> first_field(
            keys[match_from(keys, ip, port, 0)],
        ) == ip && second_field(keys[match_from(keys, ip, port, 0)]) == decimal_text(port),
        forall|j: int|
            0 <= j < match_from(keys, ip, port, 0) ==> !(first_field(#[trigger] keys[j]) == ip
                && second_field(keys[j]) == decimal_text(port)),
{
    lemma_match_from_facts(keys, ip, port, 0);
}

proof fn lemma_match_from_facts(keys: Seq<Seq<char>>, ip: Seq<char>, port: int, i: int)
    requires
        0 <= i <= keys.len(),
    ensures
        i <= match_from(keys, ip, port, i) <= keys.len(),
        match_from(keys, ip, port, i) < keys.len() ==> first_field(
            keys[match_from(keys, ip, port, i)],
        ) == ip && second_field(keys[match_from(keys, ip, port, i)]) == decimal_text(port),
        forall|j: int|
            i <= j < match_from(keys, ip, port, i) ==> !(first_field(#[trigger] keys[j]) == ip
                && second_field(keys[j]) == decimal_text(port)),
    decreases keys.len() - i,
{
    if i < keys.len() && !(first_field(keys[i]) == ip && second_field(keys[i]) == decimal_text(
        port,
    )) {
        lemma_match_from_facts(keys, ip, port, i + 1);
    }
}

/// The check disconnects exactly the peers that failed: a text stays
/// connected if and only if it was connected and no peer that did not
/// answer is written under it; the order of those that stay is kept.
pub proof fn lemma_check_keeps_others(keys: Seq<Seq<char>>, outcomes: Seq<(ConnectionView, bool)>)
    ensures
        forall|k: Seq<char>|
            after_check(keys, outcomes).contains(k) <==> (keys.contains(k) && !exists|i: int|
                0 <= i < outcomes.len() && !outcomes[i].1 && #[trigger] address_text(
                    outcomes[i].0.ip,
                    outcomes[i].0.port as int,
                ) == k),
        after_check(keys, outcomes).len() <= keys.len(),
{
    let fails = failed_keys(outcomes);
    let p = |k: Seq<char>| !fails.contains(k);
    broadcast use vstd::seq_lib::group_filter_ensures;
    lemma_filter_sub(keys, p);
    assert forall|k: Seq<char>|
        after_check(keys, outcomes).contains(k) <==> (keys.contains(k) && !fails.contains(k)) by {
        if after_check(keys, outcomes).contains(k) {
            let j = choose|j: int| 0 <= j < keys.filter(p).len() && keys.filter(p)[j] == k;
            keys.lemma_filter_pred(p, j);
            assert(keys.contains(keys.filter(p)[j]));
        }
        if keys.contains(k) && !fails.contains(k) {
            let j = choose|j: int| 0 <= j < keys.len() && keys[j] == k;
            keys.lemma_filter_contains(p, j);
        }
    }
}

} // verus!
