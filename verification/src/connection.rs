//! One connection as the broker sees it: who it is, where it comes from,
//! what it has subscribed to, and what arrives on it.

use crate::topics::TopicSet;
use bytes::Bytes;
use rand::Rng;
use vstd::prelude::*;

verus! {

/// The identifier that every link to a peer broker carries. Peers are told
/// apart by address.
pub const PEER_LINK_ID: u32 = 0;

/// Client identifiers lie below this bound.
pub const CLIENT_ID_SPACE: u32 = 1_000_000;

/// Which side opened the connection.
#[derive(Clone, Copy, Debug, PartialEq, Eq, Structural)]
pub enum Role {
    /// A client that connected to this broker.
    LocalClient,
    /// A link that this broker opened to a peer.
    PeerLink,
}

/// A connection as a mathematical object.
pub struct ConnectionView {
    pub id: u32,
    pub role: Role,
    pub address: Seq<char>,
    pub topics: Set<Seq<char>>,
}

/// What arrives on a connection.
pub enum Inbound {
    /// The other side closed the connection.
    Close,
    /// A control message of the transport, such as a ping.
    Control,
    /// A data message: one frame of the broker protocol.
    Data(Bytes),
    /// The transport reported an error.
    Failed,
}

/// One connection and the topics that were subscribed to over it.
pub struct Connection {
    id: u32,
    role: Role,
    address: String,
    topics: TopicSet,
}

impl View for Connection {
    type V = ConnectionView;

    closed spec fn view(&self) -> ConnectionView {
        ConnectionView {
            id: self.id,
            role: self.role,
            address: self.address@,
            topics: self.topics@,
        }
    }
}

/// `rand::thread_rng` followed by `Rng::gen::<u32>`: a number drawn from the
/// calling thread's generator. Nothing is claimed of the number. The
/// generator panics where the operating system hands it no seed.
#[verifier::external_body]
fn draw_u32() -> u32 {
    rand::thread_rng().gen::<u32>()
}

impl Connection {
    /// A client connection from `address` whose identifier is made from
    /// the number `raw`. Nothing is subscribed yet.
    pub fn client(raw: u32, address: String) -> (c: Connection)
        ensures
            c@ == (ConnectionView {
                id: (raw % CLIENT_ID_SPACE) as u32,
                role: Role::LocalClient,
                address: address@,
                topics: Set::empty(),
            }),
    {
        Connection {
            id: raw % CLIENT_ID_SPACE,
            role: Role::LocalClient,
            address,
            topics: TopicSet::new(),
        }
    }

    /// A client connection from `address` with an identifier drawn at
    /// random. Two live connections may draw the same identifier.
    pub fn accept(address: String) -> (c: Connection)
        ensures
            c@.id < CLIENT_ID_SPACE,
            c@.role == Role::LocalClient,
            c@.address == address@,
            c@.topics == Set::<Seq<char>>::empty(),
    {
        Connection::client(draw_u32(), address)
    }

    /// The link that this broker opened to the peer at `address`.
    pub fn peer_link(address: String) -> (c: Connection)
        ensures
            c@ == (ConnectionView {
                id: PEER_LINK_ID,
                role: Role::PeerLink,
                address: address@,
                topics: Set::empty(),
            }),
    {
        Connection { id: PEER_LINK_ID, role: Role::PeerLink, address, topics: TopicSet::new() }
    }

    /// The connection's identifier.
    pub fn id(&self) -> (id: u32)
        ensures
            id == self@.id,
    {
        self.id
    }

    /// Which side opened the connection.
    pub fn role(&self) -> (role: Role)
        ensures
            role == self@.role,
    {
        self.role
    }

    /// The network address of the other side.
    pub fn address(&self) -> (a: &String)
        ensures
            a@ == self@.address,
    {
        &self.address
    }

    /// The topics subscribed to over this connection.
    pub fn topics(&self) -> (t: &TopicSet)
        ensures
            t@ == self@.topics,
    {
        &self.topics
    }

    /// Notes that `topic` was subscribed to over this connection.
    pub fn track(&mut self, topic: String)
        ensures
            final(self)@ == (ConnectionView {
                topics: old(self)@.topics.insert(topic@),
                ..old(self)@
            }),
    {
        self.topics.insert(topic);
    }

    /// Notes that `topic` was unsubscribed from over this connection.
    pub fn untrack(&mut self, topic: &String)
        ensures
            final(self)@ == (ConnectionView {
                topics: old(self)@.topics.remove(topic@),
                ..old(self)@
            }),
    {
        self.topics.remove(topic);
    }
}

} // verus!
