//! The rows of the store: connections, chunks, messages, log lines, and the
//! entries of the secondary indexes over the messages.

use crate::common::{Initiator, MessageType, Sender, SocketAddress};
use crate::text::{number_named, parse_number, parts_of, split_bytes, name_views};
use vstd::prelude::*;

verus! {

/// A copy of `bytes`.
pub fn copy_bytes(bytes: &Vec<u8>) -> (copy: Vec<u8>)
    ensures
        copy@ == bytes@,
{
    let mut copy: Vec<u8> = Vec::new();
    copy.extend_from_slice(bytes.as_slice());
    copy
}

/// The identity of a connection: the peer's endpoint and the ordinal that the
/// connection got when it was first seen.
#[derive(Clone, Copy, PartialEq, Eq, Structural, Debug, Hash)]
pub struct ConnectionKey {
    pub remote: SocketAddress,
    pub ordinal: u64,
}

/// What is known of a connection besides its identity.
#[derive(Clone, Copy, Debug)]
pub struct ConnectionValue {
    pub local: SocketAddress,
    pub initiator: Initiator,
    pub opened_at: u64,
    pub closed_at: Option<u64>,
    /// Which session key the connection runs under.
    pub session: u64,
}

/// One row of the connection table.
#[derive(Clone, Copy, Debug)]
pub struct ConnectionItem {
    pub key: ConnectionKey,
    pub value: ConnectionValue,
}

/// The order of the connections in the store: by ordinal, which is the order in
/// which they were opened, then by the host and the port of the peer.
pub open spec fn connection_before(a: ConnectionKey, b: ConnectionKey) -> bool {
    a.ordinal < b.ordinal || (a.ordinal == b.ordinal && (a.remote.ip < b.remote.ip || (a.remote.ip
        == b.remote.ip && a.remote.port < b.remote.port)))
}

/// The byte that parts the numbers in the text of a connection key: a hyphen.
pub const KEY_SEPARATOR: u8 = 45;

/// The connection that a text names, where it names one: the ordinal, the host
/// and the port of the peer as three decimal numbers with hyphens between them.
pub open spec fn connection_named(text: Seq<u8>) -> Option<ConnectionKey> {
    let parts = parts_of(text, KEY_SEPARATOR);
    if parts.len() == 3 && number_named(parts[0], u64::MAX as nat) is Some && number_named(
        parts[1],
        u128::MAX as nat,
    ) is Some && number_named(parts[2], u16::MAX as nat) is Some {
        Some(
            ConnectionKey {
                remote: SocketAddress {
                    ip: number_named(parts[1], u128::MAX as nat)->0 as u128,
                    port: number_named(parts[2], u16::MAX as nat)->0 as u16,
                },
                ordinal: number_named(parts[0], u64::MAX as nat)->0 as u64,
            },
        )
    } else {
        None
    }
}

impl ConnectionKey {
    /// Whether this connection comes before `other` in the store.
    pub fn before(&self, other: &ConnectionKey) -> (b: bool)
        ensures
            b == connection_before(*self, *other),
    {
        self.ordinal < other.ordinal || (self.ordinal == other.ordinal && (self.remote.ip
            < other.remote.ip || (self.remote.ip == other.remote.ip && self.remote.port
            < other.remote.port)))
    }

    /// Reads the text of a connection key.
    pub fn from_text(text: &[u8]) -> (key: Option<ConnectionKey>)
        ensures
            key == connection_named(text@),
    {
        let parts = split_bytes(text, KEY_SEPARATOR);
        if parts.len() != 3 {
            return None;
        }
        assert(name_views(parts@)[0] == parts@[0]@);
        assert(name_views(parts@)[1] == parts@[1]@);
        assert(name_views(parts@)[2] == parts@[2]@);
        let ordinal = match parse_number(parts[0].as_slice(), 0xffff_ffff_ffff_ffff) {
            Some(number) => number,
            None => {
                return None;
            },
        };
        let ip = match parse_number(
            parts[1].as_slice(),
            0xffff_ffff_ffff_ffff_ffff_ffff_ffff_ffff,
        ) {
            Some(number) => number,
            None => {
                return None;
            },
        };
        let port = match parse_number(parts[2].as_slice(), 0xffff) {
            Some(number) => number,
            None => {
                return None;
            },
        };
        Some(
            ConnectionKey {
                remote: SocketAddress { ip, port: port as u16 },
                ordinal: ordinal as u64,
            },
        )
    }
}

impl ConnectionItem {
    /// The row as its key and its value.
    pub fn split(self) -> (parts: (ConnectionKey, ConnectionValue))
        ensures
            parts == (self.key, self.value),
    {
        (self.key, self.value)
    }
}

/// The identity of a chunk: its connection and its index within the connection.
#[derive(Clone, Copy, PartialEq, Eq, Structural, Debug, Hash)]
pub struct ChunkKey {
    pub connection: ConnectionKey,
    pub counter: u64,
}

/// The order of the chunks in the store: by connection, then by the index of
/// the chunk within its connection.
pub open spec fn chunk_before(a: ChunkKey, b: ChunkKey) -> bool {
    connection_before(a.connection, b.connection) || (a.connection == b.connection && a.counter
        < b.counter)
}

impl ChunkKey {
    /// Whether this chunk comes before `other` in the store.
    pub fn before(&self, other: &ChunkKey) -> (b: bool)
        ensures
            b == chunk_before(*self, *other),
    {
        self.connection.before(&other.connection) || (self.connection == other.connection
            && self.counter < other.counter)
    }

    /// The key of the first chunk of a connection.
    pub fn begin(connection: ConnectionKey) -> (key: ChunkKey)
        ensures
            key == (ChunkKey { connection, counter: 0 }),
    {
        ChunkKey { connection, counter: 0 }
    }
}

/// A chunk as it came off the wire.
#[derive(Clone, Debug)]
pub struct ChunkValue {
    pub sender: Sender,
    pub bytes: Vec<u8>,
}

/// What a chunk holds, as mathematical values.
pub struct ChunkRecord {
    pub key: ChunkKey,
    pub sender: Sender,
    pub bytes: Seq<u8>,
}

impl ChunkValue {
    /// The chunk stored under `key`, as mathematical values.
    pub open spec fn record(self, key: ChunkKey) -> ChunkRecord {
        ChunkRecord { key, sender: self.sender, bytes: self.bytes@ }
    }

    /// A copy of the chunk.
    pub fn duplicate(&self) -> (copy: ChunkValue)
        ensures
            forall|key: ChunkKey| copy.record(key) == self.record(key),
            copy.sender == self.sender,
            copy.bytes@ == self.bytes@,
    {
        ChunkValue { sender: self.sender, bytes: copy_bytes(&self.bytes) }
    }
}

/// One row of the chunk table.
#[derive(Clone, Debug)]
pub struct ChunkItem {
    pub key: ChunkKey,
    pub value: ChunkValue,
}

impl View for ChunkItem {
    type V = ChunkRecord;

    open spec fn view(&self) -> ChunkRecord {
        self.value.record(self.key)
    }
}

impl ChunkItem {
    /// The row as its key and its value.
    pub fn split(self) -> (parts: (ChunkKey, ChunkValue))
        ensures
            parts.0 == self.key,
            parts.1 == self.value,
    {
        (self.key, self.value)
    }
}

/// A chunk in a listing.
#[derive(Clone, Debug)]
pub struct ChunkValueTruncated(pub ChunkValue);

/// A decoded message as it is handed to the store.
#[derive(Clone, Debug)]
pub struct MessageItem {
    pub connection: ConnectionKey,
    pub ty: MessageType,
    pub sender: Sender,
    pub initiator: Initiator,
    pub remote_addr: SocketAddress,
    /// The decrypted bytes that the message was decoded from.
    pub raw: Vec<u8>,
    /// The decoded payload in its stored form.
    pub decoded: Vec<u8>,
}

/// A stored message, as mathematical values.
pub struct MessageRecord {
    pub seq: u64,
    pub connection: ConnectionKey,
    pub ty: MessageType,
    pub sender: Sender,
    pub initiator: Initiator,
    pub remote_addr: SocketAddress,
    pub raw: Seq<u8>,
    pub decoded: Seq<u8>,
}

impl MessageItem {
    /// The message stored under `seq`, as mathematical values.
    pub open spec fn record(self, seq: u64) -> MessageRecord {
        MessageRecord {
            seq,
            connection: self.connection,
            ty: self.ty,
            sender: self.sender,
            initiator: self.initiator,
            remote_addr: self.remote_addr,
            raw: self.raw@,
            decoded: self.decoded@,
        }
    }

    /// A copy of the message.
    pub fn duplicate(&self) -> (copy: MessageItem)
        ensures
            forall|seq: u64| copy.record(seq) == self.record(seq),
    {
        MessageItem {
            connection: self.connection,
            ty: self.ty,
            sender: self.sender,
            initiator: self.initiator,
            remote_addr: self.remote_addr,
            raw: copy_bytes(&self.raw),
            decoded: copy_bytes(&self.decoded),
        }
    }
}

/// One row of the message table.
#[derive(Clone, Debug)]
pub struct MessageRow {
    pub seq: u64,
    pub item: MessageItem,
}

impl View for MessageRow {
    type V = MessageRecord;

    open spec fn view(&self) -> MessageRecord {
        self.item.record(self.seq)
    }
}

/// A stored message as a query hands it out: the message with its sequence number.
#[derive(Clone, Debug)]
pub struct MessageFrontend {
    pub id: u64,
    pub message: MessageItem,
}

impl View for MessageFrontend {
    type V = MessageRecord;

    open spec fn view(&self) -> MessageRecord {
        self.message.record(self.id)
    }
}

impl MessageFrontend {
    pub fn new(value: MessageItem, key: u64) -> (frontend: MessageFrontend)
        ensures
            frontend@ == value.record(key),
            frontend.id == key,
            frontend.message == value,
    {
        MessageFrontend { id: key, message: value }
    }
}

/// A log line of the node.
#[derive(Clone, Debug)]
pub struct LogItem {
    pub timestamp: u64,
    pub level: u8,
    pub text: Vec<u8>,
}

/// A stored log line, as mathematical values.
pub struct LogRecord {
    pub seq: u64,
    pub timestamp: u64,
    pub level: u8,
    pub text: Seq<u8>,
}

impl LogItem {
    /// The line stored under `seq`, as mathematical values.
    pub open spec fn record(self, seq: u64) -> LogRecord {
        LogRecord { seq, timestamp: self.timestamp, level: self.level, text: self.text@ }
    }

    /// A copy of the line.
    pub fn duplicate(&self) -> (copy: LogItem)
        ensures
            forall|seq: u64| copy.record(seq) == self.record(seq),
    {
        LogItem { timestamp: self.timestamp, level: self.level, text: copy_bytes(&self.text) }
    }
}

/// One row of the log table.
#[derive(Clone, Debug)]
pub struct LogRow {
    pub seq: u64,
    pub item: LogItem,
}

impl View for LogRow {
    type V = LogRecord;

    open spec fn view(&self) -> LogRecord {
        self.item.record(self.seq)
    }
}

/// An attribute value as a secondary index keys it: two numbers, the second one
/// used by endpoints only.
#[derive(Clone, Copy, PartialEq, Eq, Structural, Debug, Hash)]
pub struct IndexKey {
    pub value: u128,
    pub extra: u16,
}

/// One entry of a secondary index: an attribute value and the sequence number of
/// a message that has it. The entry holds nothing else.
#[derive(Clone, Copy, PartialEq, Eq, Structural, Debug, Hash)]
pub struct IndexEntry {
    pub key: IndexKey,
    pub seq: u64,
}

/// The number that stands for a kind of message in the index by type.
pub open spec fn type_code(ty: MessageType) -> u128 {
    match ty {
        MessageType::ConnectionMessage => 0,
        MessageType::Metadata => 1,
        MessageType::AckMessage => 2,
        MessageType::Disconnect => 3,
        MessageType::Advertise => 4,
        MessageType::SwapRequest => 5,
        MessageType::SwapAck => 6,
        MessageType::Bootstrap => 7,
        MessageType::GetCurrentBranch => 8,
        MessageType::CurrentBranch => 9,
        MessageType::Deactivate => 10,
        MessageType::GetCurrentHead => 11,
        MessageType::CurrentHead => 12,
        MessageType::GetBlockHeaders => 13,
        MessageType::BlockHeader => 14,
        MessageType::GetOperations => 15,
        MessageType::Operation => 16,
        MessageType::GetProtocols => 17,
        MessageType::Protocol => 18,
        MessageType::GetOperationHashesForBlocks => 19,
        MessageType::OperationHashesForBlocks => 20,
        MessageType::GetOperationsForBlocks => 21,
        MessageType::OperationsForBlocks => 22,
        MessageType::Unknown => 23,
    }
}

/// The key of a kind of message in the index by type.
pub open spec fn type_key(ty: MessageType) -> IndexKey {
    IndexKey { value: type_code(ty), extra: 0 }
}

/// The key of a sender in the index by sender.
pub open spec fn sender_key(sender: Sender) -> IndexKey {
    IndexKey { value: if sender == Sender::Local { 0 } else { 1 }, extra: 0 }
}

/// The key of an initiator in the index by initiator.
pub open spec fn initiator_key(initiator: Initiator) -> IndexKey {
    IndexKey { value: if initiator == Initiator::Local { 0 } else { 1 }, extra: 0 }
}

/// The key of an endpoint in the index by remote address.
pub open spec fn address_key(addr: SocketAddress) -> IndexKey {
    IndexKey { value: addr.ip, extra: addr.port }
}

impl IndexKey {
    pub fn of_type(ty: MessageType) -> (key: IndexKey)
        ensures
            key == type_key(ty),
    {
        let value: u128 = match ty {
            MessageType::ConnectionMessage => 0,
            MessageType::Metadata => 1,
            MessageType::AckMessage => 2,
            MessageType::Disconnect => 3,
            MessageType::Advertise => 4,
            MessageType::SwapRequest => 5,
            MessageType::SwapAck => 6,
            MessageType::Bootstrap => 7,
            MessageType::GetCurrentBranch => 8,
            MessageType::CurrentBranch => 9,
            MessageType::Deactivate => 10,
            MessageType::GetCurrentHead => 11,
            MessageType::CurrentHead => 12,
            MessageType::GetBlockHeaders => 13,
            MessageType::BlockHeader => 14,
            MessageType::GetOperations => 15,
            MessageType::Operation => 16,
            MessageType::GetProtocols => 17,
            MessageType::Protocol => 18,
            MessageType::GetOperationHashesForBlocks => 19,
            MessageType::OperationHashesForBlocks => 20,
            MessageType::GetOperationsForBlocks => 21,
            MessageType::OperationsForBlocks => 22,
            MessageType::Unknown => 23,
        };
        IndexKey { value, extra: 0 }
    }

    pub fn of_sender(sender: Sender) -> (key: IndexKey)
        ensures
            key == sender_key(sender),
    {
        match sender {
            Sender::Local => IndexKey { value: 0, extra: 0 },
            Sender::Remote => IndexKey { value: 1, extra: 0 },
        }
    }

    pub fn of_initiator(initiator: Initiator) -> (key: IndexKey)
        ensures
            key == initiator_key(initiator),
    {
        match initiator {
            Initiator::Local => IndexKey { value: 0, extra: 0 },
            Initiator::Remote => IndexKey { value: 1, extra: 0 },
        }
    }

    pub fn of_address(addr: SocketAddress) -> (key: IndexKey)
        ensures
            key == address_key(addr),
    {
        IndexKey { value: addr.ip, extra: addr.port }
    }
}

/// Different attribute values have different keys, index by index.
pub proof fn lemma_keys_injective()
    ensures
        forall|a: MessageType, b: MessageType| #[trigger] type_key(a) == #[trigger] type_key(b) ==> a == b,
        forall|a: Sender, b: Sender| #[trigger] sender_key(a) == #[trigger] sender_key(b) ==> a == b,
        forall|a: Initiator, b: Initiator|
            #[trigger] initiator_key(a) == #[trigger] initiator_key(b) ==> a == b,
        forall|a: SocketAddress, b: SocketAddress|
            #[trigger] address_key(a) == #[trigger] address_key(b) ==> a == b,
{
}

} // verus!
