//! Core of a client for the BitTorrent Mainline DHT: an I/O-free state
//! machine that maintains a Kademlia routing table, tracks outstanding
//! query transactions, drives iterative find-node lookups, and
//! serializes/parses the KRPC wire protocol.
//!
//! The host application owns the UDP socket, the clock, and feeds received
//! datagrams in; it pulls outbound datagrams and timeout deadlines out.

use vstd::prelude::*;

pub mod find_node_op;
pub mod id;
pub mod krpc;
pub mod msg_buffer;
pub mod node;
pub mod routing;
pub mod transaction;

pub use node::Node;

verus! {

/// Relies on rand::random: a value drawn from the thread-local generator.
/// Nothing can be promised of a random value, so this carries no contract;
/// every caller states what holds of any outcome.
pub assume_specification<T>[ rand::random::<T> ]() -> (r: T)
    where
        rand::distributions::Standard: rand::distributions::Distribution<T>,
;

/// Milliseconds of the host's monotonic clock; all time enters through
/// explicit `now` parameters.
pub type Instant = u64;

/// A span of milliseconds.
pub type Duration = u64;

/// A bucket never holds more than this many primary records.
pub const MAX_BUCKET_SIZE: usize = 8;

/// How long a contact counts as fresh after a response or query: 15 min.
pub const TIMEOUT_INTERVAL_MS: u64 = 15 * 60 * 1000;

/// How long a bucket may go without change before it should be refreshed.
pub const BUCKET_REFRESH_INTERVAL_MS: u64 = 15 * 60 * 1000;

/// How often the local pivot id is itself re-looked-up.
pub const FIND_LOCAL_ID_INTERVAL_MS: u64 = 15 * 60 * 1000;

/// The deadline applied to queries authored without an explicit timeout.
pub const DEFAULT_QUERY_TIMEOUT_MS: u64 = 60 * 1000;

/// The largest clock value the library accepts, leaving room to push any
/// deadline one liveness interval ahead without overflow.
pub const INSTANT_LIMIT: u64 = u64::MAX - (15 * 60 * 1000);

/// What went wrong while processing a message or authoring a query.
#[derive(Debug)]
pub enum ErrorKind {
    /// The datagram did not parse as a message of the wire format.
    Decode,
    /// The datagram's envelope carried no recognized message type.
    UnknownMsgTy,
    /// The message's transaction id was malformed, matched no outstanding
    /// transaction, or failed the strict identity check.
    InvalidInput(krpc::KrpcMsg),
    /// All 65,536 transaction ids are in use.
    TransactionTableFull,
}

/// Error raised while processing KRPC traffic.
#[derive(Debug)]
pub struct Error {
    pub kind: ErrorKind,
}

impl Error {
    /// Whether the error came from a failed decode of an inbound datagram.
    pub fn is_decode_error(&self) -> (r: bool)
        ensures
            r == (self.kind is Decode),
    {
        matches!(self.kind, ErrorKind::Decode)
    }

    /// The message the error is about, when one was parsed.
    pub fn msg(&self) -> (r: Option<&krpc::KrpcMsg>)
        ensures
            match self.kind {
                ErrorKind::InvalidInput(_) => r is Some,
                _ => r is None,
            },
            self.kind matches ErrorKind::InvalidInput(m) ==> (r matches Some(rm) && *rm == m),
    {
        match &self.kind {
            ErrorKind::InvalidInput(m) => Some(m),
            _ => None,
        }
    }
}

/// Events related to KRPC messages: responses, errors, and queries.
#[derive(Debug, Clone)]
pub enum MsgEvent {
    Resp(krpc::KrpcMsg),
    Error(krpc::KrpcMsg),
    Query(krpc::KrpcMsg),
}

/// A deserialized message event with the relevant node information and
/// local transaction identifier.
#[derive(Debug, Clone)]
pub struct ReadEvent {
    pub addr_opt_id: id::AddrOptId,
    pub tx_id: Option<transaction::Id>,
    pub msg: MsgEvent,
}

impl ReadEvent {
    /// Returns the relevant node's network address and optional id.
    pub fn addr_opt_id(&self) -> (r: &id::AddrOptId)
        ensures
            *r == self.addr_opt_id,
    {
        &self.addr_opt_id
    }

    /// Returns the local transaction id if the event answers a query sent
    /// by the local node.
    pub fn tx_id(&self) -> (r: Option<transaction::Id>)
        ensures
            r == self.tx_id,
    {
        self.tx_id
    }

    /// Returns the message event.
    pub fn msg(&self) -> (r: &MsgEvent)
        ensures
            *r == self.msg,
    {
        &self.msg
    }
}

/// The address families the node accepts.
#[derive(Clone, Copy, Debug, PartialEq, Eq, Structural)]
pub enum SupportedAddr {
    Ipv4,
    Ipv6,
    Ipv4AndIpv6,
}

/// The configuration for the local DHT node.
#[derive(Clone, Debug)]
pub struct Config {
    /// Local node id, the pivot of the routing table.
    pub local_id: id::Id,
    /// Client version identifier stamped into outbound messages.
    pub client_version: Option<Vec<u8>>,
    /// How long a query without a response waits before it times out.
    pub default_query_timeout: Duration,
    /// Whether the node advertises itself as read only.
    pub is_read_only_node: bool,
    /// Whether responses must come from the queried node id.
    pub is_response_queried_node_id_strictly_checked: bool,
    /// The address families accepted.
    pub supported_addr: SupportedAddr,
}

impl Config {
    /// A configuration with the given local id and the defaults: a
    /// one-minute query timeout, strict identity checks, both address
    /// families.
    pub fn new(id: id::Id) -> (r: Config)
        ensures
            r.local_id == id,
            r.client_version is None,
            r.default_query_timeout == DEFAULT_QUERY_TIMEOUT_MS,
            !r.is_read_only_node,
            r.is_response_queried_node_id_strictly_checked,
            r.supported_addr is Ipv4AndIpv6,
    {
        Config {
            local_id: id,
            client_version: None,
            default_query_timeout: DEFAULT_QUERY_TIMEOUT_MS,
            is_read_only_node: false,
            is_response_queried_node_id_strictly_checked: true,
            supported_addr: SupportedAddr::Ipv4AndIpv6,
        }
    }

    /// Returns the node's local id.
    pub fn local_id(&self) -> (r: id::Id)
        ensures
            r == self.local_id,
    {
        self.local_id
    }

    /// Sets the node's local id.
    pub fn set_local_id(&mut self, id: id::Id)
        ensures
            *final(self) == (Config { local_id: id, ..*old(self) }),
    {
        self.local_id = id;
    }

    /// Returns the client version.
    pub fn client_version(&self) -> (r: &Option<Vec<u8>>)
        ensures
            *r == self.client_version,
    {
        &self.client_version
    }

    /// Sets the client version.
    pub fn set_client_version(&mut self, client_version: Option<Vec<u8>>)
        ensures
            *final(self) == (Config { client_version, ..*old(self) }),
    {
        self.client_version = client_version;
    }

    /// Returns the default query timeout.
    pub fn default_query_timeout(&self) -> (r: Duration)
        ensures
            r == self.default_query_timeout,
    {
        self.default_query_timeout
    }

    /// Sets the default query timeout.
    pub fn set_default_query_timeout(&mut self, default_query_timeout: Duration)
        ensures
            *final(self) == (Config { default_query_timeout, ..*old(self) }),
    {
        self.default_query_timeout = default_query_timeout;
    }

    /// Returns true if the node is read only.
    pub fn is_read_only_node(&self) -> (r: bool)
        ensures
            r == self.is_read_only_node,
    {
        self.is_read_only_node
    }

    /// Sets whether the node is read only.
    pub fn set_is_read_only_node(&mut self, is_read_only_node: bool)
        ensures
            *final(self) == (Config { is_read_only_node, ..*old(self) }),
    {
        self.is_read_only_node = is_read_only_node;
    }

    /// Returns true if responses are strictly checked against the queried
    /// node id.
    pub fn is_response_queried_node_id_strictly_checked(&self) -> (r: bool)
        ensures
            r == self.is_response_queried_node_id_strictly_checked,
    {
        self.is_response_queried_node_id_strictly_checked
    }

    /// Sets whether responses are strictly checked against the queried
    /// node id.
    pub fn set_is_response_queried_node_id_strictly_checked(
        &mut self,
        is_response_queried_node_id_strictly_checked: bool,
    )
        ensures
            *final(self) == (Config {
                is_response_queried_node_id_strictly_checked,
                ..*old(self)
            }),
    {
        self.is_response_queried_node_id_strictly_checked =
            is_response_queried_node_id_strictly_checked;
    }

    /// Returns the supported address families.
    pub fn supported_addr(&self) -> (r: SupportedAddr)
        ensures
            r == self.supported_addr,
    {
        self.supported_addr
    }

    /// Sets the supported address families.
    pub fn set_supported_addr(&mut self, supported_addr: SupportedAddr)
        ensures
            *final(self) == (Config { supported_addr, ..*old(self) }),
    {
        self.supported_addr = supported_addr;
    }
}

} // verus!
