//! The indexed store: four tables of rows and four secondary indexes over the
//! messages, filled by the store operations and read by the fetch operations.
//!
//! Rows live in memory, each table in the ascending order of its keys: the
//! connections by ordinal and peer, the chunks by connection and index.
//! Messages and log lines are keyed by two counters of their own, so their
//! tables run in ascending order of sequence number, without a gap.

use crate::common::{Initiator, MessageType, Sender, SocketAddress};
use crate::index::{
    ascending, index_scan, lemma_index_scan_push, lemma_newest_first_empty,
    lemma_filter_keeps_order, lemma_newest_first_numbers, lemma_newest_first_push,
    lemma_page_of_filter,
    lemma_page_of_newest, newest_first, scan_index, scanned, IndexCursor,
};
use crate::query::{
    filter_valid, lemma_add_stream, lemma_same_streams, lemma_scan_asks, lemma_streams_answer,
    message_wanted, numbered, parse_types, address_wanted, initiator_wanted, sender_wanted,
    stored_below, streams_stand_for, type_wanted, MessagesFilter,
};
use crate::sorted_intersect::{
    descending, first_n, merge_descending, remaining_views, sorted_intersect, stream_views,
    strictly_descending,
};
use crate::tables::{
    address_key, chunk_before, connection_before, connection_named, initiator_key,
    lemma_keys_injective, sender_key, type_key, ChunkItem, ChunkKey,
    ChunkRecord, ChunkValue, ChunkValueTruncated, ConnectionItem, ConnectionKey, IndexEntry,
    IndexKey, LogItem, LogRecord, LogRow, MessageFrontend, MessageItem, MessageRecord, MessageRow,
};
use vstd::prelude::*;
use vstd::string::StringSliceAdditionalSpecFns;
use vstd::utf8::encode_utf8;

verus! {

/// Why the store refused an operation.
#[derive(Clone, Copy, PartialEq, Eq, Structural, Debug)]
pub enum Reason {
    /// A query names a kind of message that the protocol does not have. This is
    /// a fault of the request.
    UnknownMessageType,
    /// A query names a connection by a text that is no connection key. This is a
    /// fault of the request.
    InvalidConnectionId,
    /// A query names a peer by a text that is no address. This is a fault of the request.
    InvalidAddress,
    /// A query names a role that is neither of the two. This is a fault of the request.
    InvalidRole,
    /// A sequence counter has given out its last number. This is a fault of the store.
    CounterExhausted,
}

/// The error of a store or fetch operation.
#[derive(Clone, Copy, PartialEq, Eq, Structural, Debug)]
pub struct DbError {
    pub reason: Reason,
}

impl DbError {
    /// Whether the caller's request is at fault, and not the store.
    pub fn is_request_error(&self) -> (b: bool)
        ensures
            b == (self.reason != Reason::CounterExhausted),
    {
        match self.reason {
            Reason::UnknownMessageType => true,
            Reason::InvalidConnectionId => true,
            Reason::InvalidAddress => true,
            Reason::InvalidRole => true,
            Reason::CounterExhausted => false,
        }
    }
}

/// What the store holds, as mathematical values.
pub struct DbState {
    /// The sequence number that the next message gets.
    pub message_counter: u64,
    /// The sequence number that the next log line gets.
    pub log_counter: u64,
    pub connections: Seq<ConnectionItem>,
    pub chunks: Seq<ChunkRecord>,
    pub messages: Seq<MessageRecord>,
    pub logs: Seq<LogRecord>,
    pub by_type: Seq<IndexEntry>,
    pub by_sender: Seq<IndexEntry>,
    pub by_initiator: Seq<IndexEntry>,
    pub by_address: Seq<IndexEntry>,
}

/// The entry that an index holds for a message.
pub open spec fn entry_of(key: IndexKey, message: MessageRecord) -> IndexEntry {
    IndexEntry { key, seq: message.seq }
}

/// The invariant of the store.
///
/// The counters have handed out the sequence numbers of the rows one by one,
/// so the rows end just below the counter. Each index holds, at the place of
/// each message, the one entry for that message. The connections and the chunks
/// stand in the order of their keys, so no key occurs twice among them.
pub open spec fn consistent(s: DbState) -> bool {
    &&& forall|i: int|
        0 <= i < s.messages.len() ==> (#[trigger] s.messages[i]).seq + (s.messages.len() - i)
            == s.message_counter
    &&& forall|i: int|
        0 <= i < s.logs.len() ==> (#[trigger] s.logs[i]).seq + (s.logs.len() - i) == s.log_counter
    &&& s.by_type.len() == s.messages.len()
    &&& s.by_sender.len() == s.messages.len()
    &&& s.by_initiator.len() == s.messages.len()
    &&& s.by_address.len() == s.messages.len()
    &&& forall|i: int|
        0 <= i < s.messages.len() ==> #[trigger] s.by_type[i] == entry_of(
            type_key(s.messages[i].ty),
            s.messages[i],
        )
    &&& forall|i: int|
        0 <= i < s.messages.len() ==> #[trigger] s.by_sender[i] == entry_of(
            sender_key(s.messages[i].sender),
            s.messages[i],
        )
    &&& forall|i: int|
        0 <= i < s.messages.len() ==> #[trigger] s.by_initiator[i] == entry_of(
            initiator_key(s.messages[i].initiator),
            s.messages[i],
        )
    &&& forall|i: int|
        0 <= i < s.messages.len() ==> #[trigger] s.by_address[i] == entry_of(
            address_key(s.messages[i].remote_addr),
            s.messages[i],
        )
    &&& connections_sorted(s.connections)
    &&& chunks_sorted(s.chunks)
}

/// Whether the connections stand in the strictly ascending order of their keys.
pub open spec fn connections_sorted(rows: Seq<ConnectionItem>) -> bool {
    forall|i: int, j: int|
        0 <= i < j < rows.len() ==> connection_before(
            (#[trigger] rows[i]).key,
            (#[trigger] rows[j]).key,
        )
}

/// Whether the chunks stand in the strictly ascending order of their keys: by
/// connection, and within a connection by the index of the chunk.
pub open spec fn chunks_sorted(rows: Seq<ChunkRecord>) -> bool {
    forall|i: int, j: int|
        0 <= i < j < rows.len() ==> chunk_before((#[trigger] rows[i]).key, (#[trigger] rows[j]).key)
}

/// Whether `place` parts the connections at `key`: the rows before it have
/// smaller keys, and no row from it on has.
pub open spec fn parts_connections(rows: Seq<ConnectionItem>, key: ConnectionKey, place: int) -> bool {
    &&& 0 <= place <= rows.len()
    &&& forall|j: int| 0 <= j < place ==> connection_before((#[trigger] rows[j]).key, key)
    &&& forall|j: int| place <= j < rows.len() ==> !connection_before((#[trigger] rows[j]).key, key)
}

/// Whether `place` parts the chunks at `key`: the rows before it have smaller
/// keys, and no row from it on has.
pub open spec fn parts_chunks(rows: Seq<ChunkRecord>, key: ChunkKey, place: int) -> bool {
    &&& 0 <= place <= rows.len()
    &&& forall|j: int| 0 <= j < place ==> chunk_before((#[trigger] rows[j]).key, key)
    &&& forall|j: int| place <= j < rows.len() ==> !chunk_before((#[trigger] rows[j]).key, key)
}

/// In a sorted table only one place parts the rows at a key.
pub proof fn lemma_connection_place(rows: Seq<ConnectionItem>, key: ConnectionKey, a: int, b: int)
    requires
        parts_connections(rows, key, a),
        parts_connections(rows, key, b),
    ensures
        a == b,
{
    if a < b {
        assert(connection_before(rows[a].key, key));
    } else if b < a {
        assert(connection_before(rows[b].key, key));
    }
}

/// In a sorted table only one place parts the rows at a key.
pub proof fn lemma_chunk_place(rows: Seq<ChunkRecord>, key: ChunkKey, a: int, b: int)
    requires
        parts_chunks(rows, key, a),
        parts_chunks(rows, key, b),
    ensures
        a == b,
{
    if a < b {
        assert(chunk_before(rows[a].key, key));
    } else if b < a {
        assert(chunk_before(rows[b].key, key));
    }
}

/// The table after `item` was put: in the place of the row with the same key, and
/// where the table has no such row, at the place that the order of the keys gives it.
pub open spec fn put_connection(rows: Seq<ConnectionItem>, item: ConnectionItem) -> Seq<
    ConnectionItem,
> {
    let place = choose|place: int| parts_connections(rows, item.key, place);
    if place < rows.len() && rows[place].key == item.key {
        rows.update(place, item)
    } else {
        rows.insert(place, item)
    }
}

/// The table after `item` was put: in the place of the row with the same key, and
/// where the table has no such row, at the place that the order of the keys gives it.
pub open spec fn put_chunk(rows: Seq<ChunkRecord>, item: ChunkRecord) -> Seq<ChunkRecord> {
    let place = choose|place: int| parts_chunks(rows, item.key, place);
    if place < rows.len() && rows[place].key == item.key {
        rows.update(place, item)
    } else {
        rows.insert(place, item)
    }
}

/// The store.
pub struct Db {
    message_counter: u64,
    log_counter: u64,
    connections: Vec<ConnectionItem>,
    chunks: Vec<ChunkItem>,
    messages: Vec<MessageRow>,
    logs: Vec<LogRow>,
    by_type: Vec<IndexEntry>,
    by_sender: Vec<IndexEntry>,
    by_initiator: Vec<IndexEntry>,
    by_address: Vec<IndexEntry>,
}

impl View for Db {
    type V = DbState;

    closed spec fn view(&self) -> DbState {
        DbState {
            message_counter: self.message_counter,
            log_counter: self.log_counter,
            connections: self.connections@,
            chunks: self.chunks@.map_values(|c: ChunkItem| c@),
            messages: self.messages@.map_values(|m: MessageRow| m@),
            logs: self.logs@.map_values(|l: LogRow| l@),
            by_type: self.by_type@,
            by_sender: self.by_sender@,
            by_initiator: self.by_initiator@,
            by_address: self.by_address@,
        }
    }
}

impl Db {
    /// Whether the store is in order.
    pub open spec fn wf(&self) -> bool {
        consistent(self@)
    }

    /// An empty store whose counters start at the given numbers.
    pub fn open(message_counter: u64, log_counter: u64) -> (db: Db)
        ensures
            db.wf(),
            db@ == (DbState {
                message_counter,
                log_counter,
                connections: Seq::empty(),
                chunks: Seq::empty(),
                messages: Seq::empty(),
                logs: Seq::empty(),
                by_type: Seq::empty(),
                by_sender: Seq::empty(),
                by_initiator: Seq::empty(),
                by_address: Seq::empty(),
            }),
    {
        let db = Db {
            message_counter,
            log_counter,
            connections: Vec::new(),
            chunks: Vec::new(),
            messages: Vec::new(),
            logs: Vec::new(),
            by_type: Vec::new(),
            by_sender: Vec::new(),
            by_initiator: Vec::new(),
            by_address: Vec::new(),
        };
        proof {
            assert(db@.chunks =~= Seq::empty());
            assert(db@.messages =~= Seq::empty());
            assert(db@.logs =~= Seq::empty());
        }
        db
    }

    /// Takes the next sequence number for a message, `None` when the counter has
    /// given out its last number.
    fn reserve_message_counter(&mut self) -> (seq: Option<u64>)
        ensures
            old(self).message_counter == u64::MAX ==> seq is None && *final(self) == *old(self),
            old(self).message_counter < u64::MAX ==> seq == Some(old(self).message_counter)
                && *final(self) == (Db {
                message_counter: (old(self).message_counter + 1) as u64,
                ..*old(self)
            }),
    {
        if self.message_counter == u64::MAX {
            None
        } else {
            let seq = self.message_counter;
            self.message_counter = seq + 1;
            Some(seq)
        }
    }

    /// Takes the next sequence number for a log line, `None` when the counter has
    /// given out its last number.
    fn reserve_log_counter(&mut self) -> (seq: Option<u64>)
        ensures
            old(self).log_counter == u64::MAX ==> seq is None && *final(self) == *old(self),
            old(self).log_counter < u64::MAX ==> seq == Some(old(self).log_counter) && *final(self)
                == (Db { log_counter: (old(self).log_counter + 1) as u64, ..*old(self) }),
    {
        if self.log_counter == u64::MAX {
            None
        } else {
            let seq = self.log_counter;
            self.log_counter = seq + 1;
            Some(seq)
        }
    }

    /// Puts a connection: a new row for a new key, at the place that the order of
    /// the keys gives it, and the new value in place of the old one for a key that
    /// the table has.
    pub fn store_connection(&mut self, item: ConnectionItem)
        requires
            old(self).wf(),
        ensures
            final(self).wf(),
            final(self)@ == (DbState {
                connections: put_connection(old(self)@.connections, item),
                ..old(self)@
            }),
    {
        let mut i: usize = 0;
        while i < self.connections.len() && self.connections[i].key.before(&item.key)
            invariant
                i <= self.connections@.len(),
                *self == *old(self),
                old(self).wf(),
                forall|j: int|
                    0 <= j < i ==> connection_before((#[trigger] self.connections@[j]).key, item.key),
            decreases self.connections@.len() - i,
        {
            i += 1;
        }
        let ghost rows = old(self)@.connections;
        proof {
            assert forall|j: int| i <= j < rows.len() implies !connection_before(
                (#[trigger] rows[j]).key,
                item.key,
            ) by {
                if j > i {
                    assert(connection_before(rows[i as int].key, rows[j].key));
                }
            }
            assert(parts_connections(rows, item.key, i as int));
            let place = choose|place: int| parts_connections(rows, item.key, place);
            lemma_connection_place(rows, item.key, place, i as int);
        }
        if i < self.connections.len() && self.connections[i].key == item.key {
            self.connections[i] = item;
            proof {
                assert(self@.connections =~= rows.update(i as int, item));
                assert forall|a: int, b: int|
                    0 <= a < b < self@.connections.len() implies connection_before(
                    (#[trigger] self@.connections[a]).key,
                    (#[trigger] self@.connections[b]).key,
                ) by {
                    assert(connection_before(rows[a].key, rows[b].key));
                }
            }
        } else {
            self.connections.insert(i, item);
            proof {
                assert(self@.connections =~= rows.insert(i as int, item));
                assert forall|a: int, b: int|
                    0 <= a < b < self@.connections.len() implies connection_before(
                    (#[trigger] self@.connections[a]).key,
                    (#[trigger] self@.connections[b]).key,
                ) by {
                    let from_a = if a < i { a } else { a - 1 };
                    let from_b = if b < i { b } else { b - 1 };
                    if a != i && b != i {
                        assert(connection_before(rows[from_a].key, rows[from_b].key));
                    } else if a == i {
                        assert(!connection_before(rows[from_b].key, item.key));
                        if from_b > i {
                            assert(connection_before(rows[i as int].key, rows[from_b].key));
                        }
                    } else {
                        assert(connection_before(rows[from_a].key, item.key));
                    }
                }
            }
        }
    }

    /// Replaces a connection: the row under the key is dropped, then the item is put
    /// in its place.
    pub fn update_connection(&mut self, item: ConnectionItem)
        requires
            old(self).wf(),
        ensures
            final(self).wf(),
            final(self)@ == (DbState {
                connections: put_connection(old(self)@.connections, item),
                ..old(self)@
            }),
    {
        self.store_connection(item)
    }
}

/// How many rows a listing may hand out: the limit of the filter, or 100 where
/// the filter sets none.
pub open spec fn page_size(limit: Option<usize>) -> nat {
    match limit {
        Some(n) => n as nat,
        None => 100,
    }
}

/// Which connections to list.
#[derive(Clone, Copy, Debug)]
pub struct ConnectionsFilter {
    pub limit: Option<usize>,
}

/// Which chunks to list: all, or those of the connection whose key the text names.
#[derive(Clone, Debug)]
pub struct ChunksFilter {
    pub limit: Option<usize>,
    pub cn: Option<String>,
}

/// The connection that a filter asks for, where it asks for one.
pub open spec fn wanted_connection(cn: Option<String>) -> Option<ConnectionKey> {
    match cn {
        Some(text) => connection_named(encode_utf8(text@)),
        None => None,
    }
}

/// Whether the text of the connection in a filter, where it has one, names a connection.
pub open spec fn connection_valid(cn: Option<String>) -> bool {
    cn is Some ==> wanted_connection(cn) is Some
}

/// Which log lines to list. With a cursor the listing starts at the line that
/// the cursor names, and includes it.
#[derive(Clone, Copy, Debug)]
pub struct LogsFilter {
    pub limit: Option<usize>,
    pub cursor: Option<u64>,
}

/// Whether a chunk belongs to the connection that a filter asks for.
pub open spec fn chunk_wanted(chunk: ChunkRecord, cn: Option<ConnectionKey>) -> bool {
    match cn {
        Some(connection) => chunk.key.connection == connection,
        None => true,
    }
}

/// Whether a log line lies at or below the cursor of a filter.
pub open spec fn log_wanted(line: LogRecord, cursor: Option<u64>) -> bool {
    match cursor {
        Some(from) => line.seq <= from,
        None => true,
    }
}

/// A listing of chunks, as mathematical values.
pub open spec fn chunk_listing(page: Seq<(ChunkKey, ChunkValueTruncated)>) -> Seq<ChunkRecord> {
    page.map_values(|row: (ChunkKey, ChunkValueTruncated)| row.1.0.record(row.0))
}

fn limit_of(limit: Option<usize>) -> (n: usize)
    ensures
        n == page_size(limit),
{
    match limit {
        Some(n) => n,
        None => 100,
    }
}

impl Db {
    /// Puts a chunk: a new row for a new key, at the place that the order of the
    /// keys gives it, and the new value in place of the old one for a key that
    /// the table has.
    pub fn store_chunk(&mut self, item: ChunkItem)
        requires
            old(self).wf(),
        ensures
            final(self).wf(),
            final(self)@ == (DbState { chunks: put_chunk(old(self)@.chunks, item@), ..old(self)@ }),
    {
        let mut i: usize = 0;
        while i < self.chunks.len() && self.chunks[i].key.before(&item.key)
            invariant
                i <= self.chunks@.len(),
                *self == *old(self),
                old(self).wf(),
                self@.chunks.len() == self.chunks@.len(),
                forall|j: int| 0 <= j < i ==> chunk_before((#[trigger] self@.chunks[j]).key, item.key),
            decreases self.chunks@.len() - i,
        {
            assert(self@.chunks[i as int].key == self.chunks@[i as int].key);
            i += 1;
        }
        let ghost rows = old(self)@.chunks;
        let ghost record = item@;
        proof {
            if i < rows.len() {
                assert(rows[i as int].key == self.chunks@[i as int].key);
            }
            assert forall|j: int| i <= j < rows.len() implies !chunk_before(
                (#[trigger] rows[j]).key,
                record.key,
            ) by {
                if j > i {
                    assert(chunk_before(rows[i as int].key, rows[j].key));
                }
            }
            assert(parts_chunks(rows, record.key, i as int));
            let place = choose|place: int| parts_chunks(rows, record.key, place);
            lemma_chunk_place(rows, record.key, place, i as int);
        }
        if i < self.chunks.len() && self.chunks[i].key == item.key {
            self.chunks[i] = item;
            proof {
                assert(self@.chunks =~= rows.update(i as int, record));
                assert forall|a: int, b: int|
                    0 <= a < b < self@.chunks.len() implies chunk_before(
                    (#[trigger] self@.chunks[a]).key,
                    (#[trigger] self@.chunks[b]).key,
                ) by {
                    assert(chunk_before(rows[a].key, rows[b].key));
                }
            }
        } else {
            self.chunks.insert(i, item);
            proof {
                assert(self@.chunks =~= rows.insert(i as int, record));
                assert forall|a: int, b: int|
                    0 <= a < b < self@.chunks.len() implies chunk_before(
                    (#[trigger] self@.chunks[a]).key,
                    (#[trigger] self@.chunks[b]).key,
                ) by {
                    let from_a = if a < i { a } else { a - 1 };
                    let from_b = if b < i { b } else { b - 1 };
                    if a != i && b != i {
                        assert(chunk_before(rows[from_a].key, rows[from_b].key));
                    } else if a == i {
                        assert(!chunk_before(rows[from_b].key, record.key));
                        if from_b > i {
                            assert(chunk_before(rows[i as int].key, rows[from_b].key));
                        }
                    } else {
                        assert(chunk_before(rows[from_a].key, record.key));
                    }
                }
            }
        }
    }

    /// Stores a message under the next sequence number, with one entry in each of
    /// the four indexes, and hands the number back. Where the counter has given
    /// out its last number, nothing is stored.
    pub fn store_message(&mut self, item: MessageItem) -> (stored: Result<u64, DbError>)
        requires
            old(self).wf(),
        ensures
            final(self).wf(),
            old(self)@.message_counter == u64::MAX ==> stored == Err::<u64, DbError>(
                DbError { reason: Reason::CounterExhausted },
            ) && final(self)@ == old(self)@,
            old(self)@.message_counter < u64::MAX ==> stored == Ok::<u64, DbError>(
                old(self)@.message_counter,
            ) && final(self)@ == (DbState {
                message_counter: (old(self)@.message_counter + 1) as u64,
                messages: old(self)@.messages.push(item.record(old(self)@.message_counter)),
                by_type: old(self)@.by_type.push(
                    IndexEntry { key: type_key(item.ty), seq: old(self)@.message_counter },
                ),
                by_sender: old(self)@.by_sender.push(
                    IndexEntry { key: sender_key(item.sender), seq: old(self)@.message_counter },
                ),
                by_initiator: old(self)@.by_initiator.push(
                    IndexEntry {
                        key: initiator_key(item.initiator),
                        seq: old(self)@.message_counter,
                    },
                ),
                by_address: old(self)@.by_address.push(
                    IndexEntry {
                        key: address_key(item.remote_addr),
                        seq: old(self)@.message_counter,
                    },
                ),
                ..old(self)@
            }),
    {
        let index = match self.reserve_message_counter() {
            Some(index) => index,
            None => {
                return Err(DbError { reason: Reason::CounterExhausted });
            },
        };
        let ty_index = IndexEntry { key: IndexKey::of_type(item.ty), seq: index };
        let sender_index = IndexEntry { key: IndexKey::of_sender(item.sender), seq: index };
        let initiator_index = IndexEntry { key: IndexKey::of_initiator(item.initiator), seq: index };
        let addr_index = IndexEntry { key: IndexKey::of_address(item.remote_addr), seq: index };
        let ghost record = item.record(index);
        self.by_type.push(ty_index);
        self.by_sender.push(sender_index);
        self.by_initiator.push(initiator_index);
        self.by_address.push(addr_index);
        self.messages.push(MessageRow { seq: index, item });
        proof {
            assert(self@.messages =~= old(self)@.messages.push(record));
            assert(self@.chunks =~= old(self)@.chunks);
            assert(self@.logs =~= old(self)@.logs);
        }
        Ok(index)
    }

    /// Stores a log line under the next sequence number of the log, and hands the
    /// number back. Where the counter has given out its last number, nothing is stored.
    pub fn store_log(&mut self, item: LogItem) -> (stored: Result<u64, DbError>)
        requires
            old(self).wf(),
        ensures
            final(self).wf(),
            old(self)@.log_counter == u64::MAX ==> stored == Err::<u64, DbError>(
                DbError { reason: Reason::CounterExhausted },
            ) && final(self)@ == old(self)@,
            old(self)@.log_counter < u64::MAX ==> stored == Ok::<u64, DbError>(
                old(self)@.log_counter,
            ) && final(self)@ == (DbState {
                log_counter: (old(self)@.log_counter + 1) as u64,
                logs: old(self)@.logs.push(item.record(old(self)@.log_counter)),
                ..old(self)@
            }),
    {
        let index = match self.reserve_log_counter() {
            Some(index) => index,
            None => {
                return Err(DbError { reason: Reason::CounterExhausted });
            },
        };
        let ghost record = item.record(index);
        self.logs.push(LogRow { seq: index, item });
        proof {
            assert(self@.logs =~= old(self)@.logs.push(record));
            assert(self@.chunks =~= old(self)@.chunks);
            assert(self@.messages =~= old(self)@.messages);
        }
        Ok(index)
    }

    /// Lists the connections in the ascending order of their keys, from the first
    /// one on, a page of them.
    pub fn fetch_connections(&self, filter: &ConnectionsFilter) -> (page: Vec<ConnectionItem>)
        requires
            self.wf(),
        ensures
            page@ == first_n(self@.connections, page_size(filter.limit)),
            connections_sorted(page@),
    {
        let limit = limit_of(filter.limit);
        let mut page: Vec<ConnectionItem> = Vec::new();
        let mut i: usize = 0;
        while i < self.connections.len() && page.len() < limit
            invariant
                i <= self.connections@.len(),
                i <= limit,
                page@ == self.connections@.take(i as int),
            decreases self.connections@.len() - i,
        {
            page.push(self.connections[i]);
            i += 1;
            proof {
                assert(page@ =~= self.connections@.take(i as int));
            }
        }
        proof {
            if i == self.connections@.len() {
                assert(page@ =~= self.connections@);
            }
        }
        page
    }

    /// Lists the chunks in the ascending order of their keys, a page of them. With
    /// a connection in the filter, the listing holds the chunks of that connection
    /// only, from its first chunk on in the order of their indexes. A filter whose
    /// text names no connection is refused.
    pub fn fetch_chunks_truncated(&self, filter: &ChunksFilter) -> (listing: Result<
        Vec<(ChunkKey, ChunkValueTruncated)>,
        DbError,
    >)
        requires
            self.wf(),
        ensures
            match listing {
                Ok(page) => connection_valid(filter.cn) && chunk_listing(page@) == first_n(
                    self@.chunks.filter(
                        |c: ChunkRecord| chunk_wanted(c, wanted_connection(filter.cn)),
                    ),
                    page_size(filter.limit),
                ) && chunks_sorted(chunk_listing(page@)),
                Err(error) => !connection_valid(filter.cn) && error == (DbError {
                    reason: Reason::InvalidConnectionId,
                }),
            },
    {
        let limit = limit_of(filter.limit);
        let cn: Option<ConnectionKey> = match &filter.cn {
            Some(text) => match ConnectionKey::from_text(text.as_str().as_bytes()) {
                Some(connection) => Some(connection),
                None => {
                    return Err(DbError { reason: Reason::InvalidConnectionId });
                },
            },
            None => None,
        };
        assert(cn == wanted_connection(filter.cn));
        let ghost keep = |c: ChunkRecord| chunk_wanted(c, wanted_connection(filter.cn));
        let mut page: Vec<(ChunkKey, ChunkValueTruncated)> = Vec::new();
        let mut i: usize = 0;
        proof {
            reveal(Seq::filter);
            assert(self@.chunks.take(0).filter(keep) =~= Seq::<ChunkRecord>::empty());
            assert(chunk_listing(page@) =~= Seq::<ChunkRecord>::empty());
        }
        while i < self.chunks.len() && page.len() < limit
            invariant
                i <= self.chunks@.len(),
                self@.chunks.len() == self.chunks@.len(),
                cn == wanted_connection(filter.cn),
                keep == (|c: ChunkRecord| chunk_wanted(c, wanted_connection(filter.cn))),
                page@.len() <= limit,
                chunk_listing(page@) == self@.chunks.take(i as int).filter(keep),
            decreases self.chunks@.len() - i,
        {
            let row = &self.chunks[i];
            let wanted = match cn {
                Some(connection) => row.key.connection == connection,
                None => true,
            };
            proof {
                let done = self@.chunks.take(i as int);
                assert(self@.chunks.take(i + 1) =~= done.push(row@));
                done.lemma_filter_push(row@, keep);
            }
            if wanted {
                let ghost before = page@;
                page.push((row.key, ChunkValueTruncated(row.value.duplicate())));
                proof {
                    assert(chunk_listing(page@) =~= chunk_listing(before).push(row@));
                }
            }
            i += 1;
        }
        proof {
            lemma_page_of_filter(self@.chunks, keep, i as int, chunk_listing(page@), limit as nat);
            lemma_filter_keeps_order(
                self@.chunks,
                keep,
                |a: ChunkRecord, b: ChunkRecord| chunk_before(a.key, b.key),
            );
            let kept = self@.chunks.filter(keep);
            let listed = chunk_listing(page@);
            assert forall|a: int, b: int| 0 <= a < b < listed.len() implies chunk_before(
                (#[trigger] listed[a]).key,
                (#[trigger] listed[b]).key,
            ) by {
                assert(listed[a] == kept[a] && listed[b] == kept[b]);
            }
        }
        Ok(page)
    }

    /// The chunk stored under `key`.
    pub fn fetch_chunk(&self, key: &ChunkKey) -> (found: Option<ChunkValue>)
        ensures
            match found {
                Some(value) => self@.chunks.contains(value.record(*key)),
                None => forall|i: int|
                    0 <= i < self@.chunks.len() ==> (#[trigger] self@.chunks[i]).key != *key,
            },
    {
        let mut i: usize = 0;
        while i < self.chunks.len()
            invariant
                i <= self.chunks@.len(),
                self@.chunks.len() == self.chunks@.len(),
                forall|j: int| 0 <= j < i ==> (#[trigger] self@.chunks[j]).key != *key,
            decreases self.chunks@.len() - i,
        {
            if self.chunks[i].key == *key {
                let value = self.chunks[i].value.duplicate();
                proof {
                    assert(self@.chunks[i as int] == value.record(*key));
                }
                return Some(value);
            }
            i += 1;
        }
        None
    }

    /// Lists the log lines from the newest one down, a page of them; with a cursor,
    /// from the line that the cursor names down.
    pub fn fetch_log(&self, filter: &LogsFilter) -> (page: Vec<LogItem>)
        ensures
            page@.len() == first_n(
                newest_first(self@.logs, |l: LogRecord| log_wanted(l, filter.cursor)),
                page_size(filter.limit),
            ).len(),
            forall|j: int|
                #![trigger page@[j]]
                0 <= j < page@.len() ==> {
                    let line = first_n(
                        newest_first(self@.logs, |l: LogRecord| log_wanted(l, filter.cursor)),
                        page_size(filter.limit),
                    )[j];
                    page@[j].record(line.seq) == line
                },
    {
        let limit = limit_of(filter.limit);
        let ghost keep = |l: LogRecord| log_wanted(l, filter.cursor);
        let ghost mut got: Seq<LogRecord> = Seq::empty();
        let mut page: Vec<LogItem> = Vec::new();
        let mut i: usize = self.logs.len();
        proof {
            assert(self@.logs.take(i as int) =~= self@.logs);
            assert(got + newest_first(self@.logs, keep) =~= newest_first(self@.logs, keep));
        }
        while i > 0 && page.len() < limit
            invariant
                i <= self.logs@.len(),
                self@.logs.len() == self.logs@.len(),
                keep == (|l: LogRecord| log_wanted(l, filter.cursor)),
                page@.len() <= limit,
                page@.len() == got.len(),
                forall|j: int| 0 <= j < got.len() ==> (#[trigger] page@[j]).record(got[j].seq) == got[j],
                got + newest_first(self@.logs.take(i as int), keep) == newest_first(self@.logs, keep),
            decreases i,
        {
            i -= 1;
            let row = &self.logs[i];
            let wanted = match filter.cursor {
                Some(from) => row.seq <= from,
                None => true,
            };
            proof {
                let shorter = self@.logs.take(i as int);
                assert(self@.logs.take(i + 1) =~= shorter.push(row@));
                lemma_newest_first_push(shorter, row@, keep);
                if wanted {
                    assert(got.push(row@) + newest_first(shorter, keep) =~= got + (seq![row@]
                        + newest_first(shorter, keep)));
                }
            }
            if wanted {
                page.push(row.item.duplicate());
                proof {
                    got = got.push(row@);
                }
            }
        }
        proof {
            lemma_page_of_newest(self@.logs, keep, i as int, got, limit as nat);
        }
        page
    }
}

/// A page of messages, as mathematical values.
pub open spec fn message_listing(page: Seq<MessageFrontend>) -> Seq<MessageRecord> {
    page.map_values(|row: MessageFrontend| row@)
}

/// What the invariant of the store says of the numbers of the messages: they are
/// strictly ascending, none is the greatest number there is, and a message stands
/// at the place that its number tells.
pub proof fn lemma_message_numbers(s: DbState)
    requires
        consistent(s),
    ensures
        numbered(s.messages),
        forall|i: int| 0 <= i < s.messages.len() ==> (#[trigger] s.messages[i]).seq < u64::MAX,
        s.messages.len() <= s.message_counter,
        forall|i: int|
            0 <= i < s.messages.len() ==> (#[trigger] s.messages[i]).seq == s.message_counter
                - s.messages.len() + i,
{
    if s.messages.len() > 0 {
        assert(s.messages[0].seq + s.messages.len() == s.message_counter);
    }
}

impl Db {
    /// The sequence number that the next message gets.
    pub fn message_counter(&self) -> (next: u64)
        ensures
            next == self@.message_counter,
    {
        self.message_counter
    }

    /// The sequence number that the next log line gets.
    pub fn log_counter(&self) -> (next: u64)
        ensures
            next == self@.log_counter,
    {
        self.log_counter
    }

    /// The entries of the index by type, in the order of the messages.
    pub fn type_index(&self) -> (entries: &Vec<IndexEntry>)
        ensures
            entries@ == self@.by_type,
    {
        &self.by_type
    }

    /// The entries of the index by sender, in the order of the messages.
    pub fn sender_index(&self) -> (entries: &Vec<IndexEntry>)
        ensures
            entries@ == self@.by_sender,
    {
        &self.by_sender
    }

    /// The entries of the index by initiator, in the order of the messages.
    pub fn initiator_index(&self) -> (entries: &Vec<IndexEntry>)
        ensures
            entries@ == self@.by_initiator,
    {
        &self.by_initiator
    }

    /// The entries of the index by remote address, in the order of the messages.
    pub fn address_index(&self) -> (entries: &Vec<IndexEntry>)
        ensures
            entries@ == self@.by_address,
    {
        &self.by_address
    }
}

/// Whether an index holds exactly one entry with the number of `message`, and
/// holds it under `key`.
pub open spec fn holds_once(table: Seq<IndexEntry>, key: IndexKey, message: MessageRecord) -> bool {
    exists|at: int|
        0 <= at < table.len() && #[trigger] table[at] == entry_of(key, message) && forall|j: int|
            0 <= j < table.len() && (#[trigger] table[j]).seq == message.seq ==> j == at
}

/// Every stored message has exactly one entry in each of the four indexes: the
/// entry under the message's own kind, sender, initiator and remote address.
pub proof fn lemma_one_entry_per_index(s: DbState, i: int)
    requires
        consistent(s),
        0 <= i < s.messages.len(),
    ensures
        holds_once(s.by_type, type_key(s.messages[i].ty), s.messages[i]),
        holds_once(s.by_sender, sender_key(s.messages[i].sender), s.messages[i]),
        holds_once(s.by_initiator, initiator_key(s.messages[i].initiator), s.messages[i]),
        holds_once(s.by_address, address_key(s.messages[i].remote_addr), s.messages[i]),
{
    lemma_message_numbers(s);
    let message = s.messages[i];
    assert forall|j: int| 0 <= j < s.messages.len() && (#[trigger] s.messages[j]).seq
        == message.seq implies j == i by {
        if j < i {
            assert(s.messages[j].seq < s.messages[i].seq);
        } else if i < j {
            assert(s.messages[i].seq < s.messages[j].seq);
        }
    }
    assert(s.by_type[i] == entry_of(type_key(message.ty), message));
    assert forall|j: int| 0 <= j < s.by_type.len() && (#[trigger] s.by_type[j]).seq
        == message.seq implies j == i by {
        assert(s.messages[j].seq == message.seq);
    }
    assert(s.by_sender[i] == entry_of(sender_key(message.sender), message));
    assert forall|j: int| 0 <= j < s.by_sender.len() && (#[trigger] s.by_sender[j]).seq
        == message.seq implies j == i by {
        assert(s.messages[j].seq == message.seq);
    }
    assert(s.by_initiator[i] == entry_of(initiator_key(message.initiator), message));
    assert forall|j: int| 0 <= j < s.by_initiator.len() && (#[trigger] s.by_initiator[j]).seq
        == message.seq implies j == i by {
        assert(s.messages[j].seq == message.seq);
    }
    assert(s.by_address[i] == entry_of(address_key(message.remote_addr), message));
    assert forall|j: int| 0 <= j < s.by_address.len() && (#[trigger] s.by_address[j]).seq
        == message.seq implies j == i by {
        assert(s.messages[j].seq == message.seq);
    }
}

/// What the scan of the index by type says of the messages.
proof fn lemma_type_scan(s: DbState, ty: MessageType, cursor: u64)
    requires
        consistent(s),
    ensures
        strictly_descending(index_scan(s.by_type, type_key(ty), cursor)),
        forall|x: u64|
            index_scan(s.by_type, type_key(ty), cursor).contains(x) ==> #[trigger] stored_below(
                s.messages,
                cursor,
                x,
            ),
        forall|i: int|
            0 <= i < s.messages.len() && (#[trigger] s.messages[i]).seq < cursor ==> (index_scan(
                s.by_type,
                type_key(ty),
                cursor,
            ).contains(s.messages[i].seq) <==> s.messages[i].ty == ty),
{
    lemma_message_numbers(s);
    lemma_keys_injective();
    lemma_scan_asks(s.messages, s.by_type, type_key(ty), cursor, |m: MessageRecord| m.ty == ty);
}

/// What the scan of the index by sender says of the messages.
proof fn lemma_sender_scan(s: DbState, sender: Sender, cursor: u64)
    requires
        consistent(s),
    ensures
        strictly_descending(index_scan(s.by_sender, sender_key(sender), cursor)),
        forall|x: u64|
            index_scan(s.by_sender, sender_key(sender), cursor).contains(x)
                ==> #[trigger] stored_below(s.messages, cursor, x),
        forall|i: int|
            0 <= i < s.messages.len() && (#[trigger] s.messages[i]).seq < cursor ==> (index_scan(
                s.by_sender,
                sender_key(sender),
                cursor,
            ).contains(s.messages[i].seq) <==> s.messages[i].sender == sender),
{
    lemma_message_numbers(s);
    lemma_keys_injective();
    lemma_scan_asks(
        s.messages,
        s.by_sender,
        sender_key(sender),
        cursor,
        |m: MessageRecord| m.sender == sender,
    );
}

/// What the scan of the index by initiator says of the messages.
proof fn lemma_initiator_scan(s: DbState, initiator: Initiator, cursor: u64)
    requires
        consistent(s),
    ensures
        strictly_descending(index_scan(s.by_initiator, initiator_key(initiator), cursor)),
        forall|x: u64|
            index_scan(s.by_initiator, initiator_key(initiator), cursor).contains(x)
                ==> #[trigger] stored_below(s.messages, cursor, x),
        forall|i: int|
            0 <= i < s.messages.len() && (#[trigger] s.messages[i]).seq < cursor ==> (index_scan(
                s.by_initiator,
                initiator_key(initiator),
                cursor,
            ).contains(s.messages[i].seq) <==> s.messages[i].initiator == initiator),
{
    lemma_message_numbers(s);
    lemma_keys_injective();
    lemma_scan_asks(
        s.messages,
        s.by_initiator,
        initiator_key(initiator),
        cursor,
        |m: MessageRecord| m.initiator == initiator,
    );
}

/// What the scan of the index by remote address says of the messages.
proof fn lemma_address_scan(s: DbState, addr: SocketAddress, cursor: u64)
    requires
        consistent(s),
    ensures
        strictly_descending(index_scan(s.by_address, address_key(addr), cursor)),
        forall|x: u64|
            index_scan(s.by_address, address_key(addr), cursor).contains(x)
                ==> #[trigger] stored_below(s.messages, cursor, x),
        forall|i: int|
            0 <= i < s.messages.len() && (#[trigger] s.messages[i]).seq < cursor ==> (index_scan(
                s.by_address,
                address_key(addr),
                cursor,
            ).contains(s.messages[i].seq) <==> s.messages[i].remote_addr == addr),
{
    lemma_message_numbers(s);
    lemma_keys_injective();
    lemma_scan_asks(
        s.messages,
        s.by_address,
        address_key(addr),
        cursor,
        |m: MessageRecord| m.remote_addr == addr,
    );
}

/// The key under which a merged stream is kept in a table of its own.
pub open spec fn merged_key() -> IndexKey {
    IndexKey { value: 0, extra: 0 }
}

/// Lays a strictly descending stream out as a table of its own, numbered in
/// ascending order, so that the scan of the table hands the stream out again.
fn table_of(numbers: &Vec<u64>, cursor: u64) -> (table: Vec<IndexEntry>)
    requires
        strictly_descending(numbers@),
        forall|i: int| 0 <= i < numbers@.len() ==> numbers@[i] < cursor,
    ensures
        ascending(table@),
        index_scan(table@, merged_key(), cursor) == numbers@,
{
    let key = IndexKey { value: 0, extra: 0 };
    let mut table: Vec<IndexEntry> = Vec::new();
    let mut i: usize = numbers.len();
    proof {
        lemma_newest_first_empty(|e: IndexEntry| scanned(e, key, cursor));
        assert(index_scan(table@, key, cursor) =~= numbers@.skip(i as int));
    }
    while i > 0
        invariant
            i <= numbers@.len(),
            key == merged_key(),
            strictly_descending(numbers@),
            forall|j: int| 0 <= j < numbers@.len() ==> numbers@[j] < cursor,
            ascending(table@),
            table@.len() == numbers@.len() - i,
            forall|j: int| 0 <= j < table@.len() ==> (#[trigger] table@[j]).seq == numbers@[
                numbers@.len() - 1 - j],
            index_scan(table@, key, cursor) == numbers@.skip(i as int),
        decreases i,
    {
        i -= 1;
        let entry = IndexEntry { key, seq: numbers[i] };
        proof {
            lemma_index_scan_push(table@, entry, key, cursor);
            assert(seq![entry.seq] + numbers@.skip(i + 1) =~= numbers@.skip(i as int));
            assert forall|a: int, b: int| 0 <= a < b < table@.push(entry).len() implies table@.push(
                entry,
            )[a].seq < table@.push(entry)[b].seq by {
                if b == table@.len() {
                    assert(numbers@[i as int] > numbers@[numbers@.len() - 1 - a]);
                } else {
                    assert(table@[a].seq < table@[b].seq);
                }
            }
        }
        table.push(entry);
    }
    proof {
        assert(numbers@.skip(0) =~= numbers@);
    }
    table
}

/// What the table of the stream for the kinds of a query says of the messages:
/// its scan hands out numbers of stored messages below the cursor only, and it
/// hands out the number of such a message exactly when the message is of one of
/// the kinds.
pub open spec fn type_table_says(
    messages: Seq<MessageRecord>,
    cursor: u64,
    filter: MessagesFilter,
    table: Seq<IndexEntry>,
) -> bool {
    &&& ascending(table)
    &&& forall|x: u64|
        index_scan(table, merged_key(), cursor).contains(x) ==> #[trigger] stored_below(
            messages,
            cursor,
            x,
        )
    &&& forall|i: int|
        0 <= i < messages.len() && (#[trigger] messages[i]).seq < cursor ==> (index_scan(
            table,
            merged_key(),
            cursor,
        ).contains(messages[i].seq) <==> type_wanted(messages[i], filter.types))
}

/// The entries of every index are numbered in strictly ascending order.
proof fn lemma_indexes_ascending(s: DbState)
    requires
        consistent(s),
    ensures
        ascending(s.by_type),
        ascending(s.by_sender),
        ascending(s.by_initiator),
        ascending(s.by_address),
{
    lemma_message_numbers(s);
    assert forall|i: int, j: int| 0 <= i < j < s.by_type.len() implies s.by_type[i].seq
        < s.by_type[j].seq by {
        assert(s.messages[i].seq < s.messages[j].seq);
    }
    assert forall|i: int, j: int| 0 <= i < j < s.by_sender.len() implies s.by_sender[i].seq
        < s.by_sender[j].seq by {
        assert(s.messages[i].seq < s.messages[j].seq);
    }
    assert forall|i: int, j: int| 0 <= i < j < s.by_initiator.len() implies s.by_initiator[i].seq
        < s.by_initiator[j].seq by {
        assert(s.messages[i].seq < s.messages[j].seq);
    }
    assert forall|i: int, j: int| 0 <= i < j < s.by_address.len() implies s.by_address[i].seq
        < s.by_address[j].seq by {
        assert(s.messages[i].seq < s.messages[j].seq);
    }
}

/// Whether a query sets one of its four filters.
pub open spec fn filtered(filter: MessagesFilter) -> bool {
    filter.types is Some || filter.incoming is Some || filter.source_type is Some
        || filter.remote_addr is Some
}

/// Whether every filter of a query that is set holds of a message.
pub open spec fn filters_hold(message: MessageRecord, filter: MessagesFilter) -> bool {
    &&& type_wanted(message, filter.types)
    &&& sender_wanted(message, filter.incoming)
    &&& initiator_wanted(message, filter.source_type)
    &&& address_wanted(message, filter.remote_addr)
}

impl Db {
    /// Reads the message table from the cursor of the query down, a page of it.
    fn list_newest(&self, filter: &MessagesFilter) -> (page: Vec<MessageFrontend>)
        requires
            !filtered(*filter),
        ensures
            message_listing(page@) == first_n(
                newest_first(self@.messages, |m: MessageRecord| message_wanted(m, *filter)),
                page_size(filter.limit),
            ),
    {
        let limit = limit_of(filter.limit);
        let ghost keep = |m: MessageRecord| message_wanted(m, *filter);
        let ghost messages = self@.messages;
        let mut page: Vec<MessageFrontend> = Vec::new();
        let mut i: usize = self.messages.len();
        proof {
            assert(messages.take(i as int) =~= messages);
            assert(message_listing(page@) + newest_first(messages, keep) =~= newest_first(
                messages,
                keep,
            ));
        }
        while i > 0 && page.len() < limit
            invariant
                i <= self.messages@.len(),
                messages == self@.messages,
                messages.len() == self.messages@.len(),
                keep == (|m: MessageRecord| message_wanted(m, *filter)),
                !filtered(*filter),
                page@.len() <= limit,
                message_listing(page@) + newest_first(messages.take(i as int), keep)
                    == newest_first(messages, keep),
            decreases i,
        {
            i -= 1;
            let row = &self.messages[i];
            let wanted = match filter.cursor {
                Some(bound) => row.seq < bound,
                None => true,
            };
            proof {
                let shorter = messages.take(i as int);
                assert(messages.take(i + 1) =~= shorter.push(row@));
                lemma_newest_first_push(shorter, row@, keep);
                assert(wanted == keep(row@));
                if wanted {
                    assert(message_listing(page@).push(row@) + newest_first(shorter, keep)
                        =~= message_listing(page@) + (seq![row@] + newest_first(shorter, keep)));
                }
            }
            if wanted {
                let ghost before = page@;
                page.push(MessageFrontend::new(row.item.duplicate(), row.seq));
                proof {
                    assert(message_listing(page@) =~= message_listing(before).push(row@));
                }
            }
        }
        proof {
            lemma_page_of_newest(messages, keep, i as int, message_listing(page@), limit as nat);
        }
        page
    }

    /// The stream for a list of kinds: the scans of the index by type for each
    /// kind, merged into one.
    fn type_stream(&self, types: &Vec<MessageType>, cursor: u64) -> (merged: Vec<u64>)
        requires
            self.wf(),
        ensures
            strictly_descending(merged@),
            forall|x: u64|
                merged@.contains(x) ==> #[trigger] stored_below(self@.messages, cursor, x),
            forall|i: int|
                0 <= i < self@.messages.len() && (#[trigger] self@.messages[i]).seq < cursor ==> (
                merged@.contains(self@.messages[i].seq) <==> types@.contains(
                    self@.messages[i].ty,
                )),
    {
        let mut tys: Vec<Vec<u64>> = Vec::new();
        let mut k: usize = 0;
        while k < types.len()
            invariant
                k <= types@.len(),
                tys@.len() == k,
                forall|m: int|
                    0 <= m < k ==> (#[trigger] tys@[m])@ == index_scan(
                        self.by_type@,
                        type_key(types@[m]),
                        cursor,
                    ),
            decreases types@.len() - k,
        {
            tys.push(scan_index(&self.by_type, IndexKey::of_type(types[k]), cursor));
            k += 1;
        }
        let ghost scans = stream_views(tys@);
        let ghost messages = self@.messages;
        proof {
            assert forall|m: int| 0 <= m < tys@.len() implies descending(#[trigger] tys@[m]@) by {
                lemma_type_scan(self@, types@[m], cursor);
            }
        }
        let merged = merge_descending(tys);
        proof {
            assert forall|x: u64| merged@.contains(x) implies #[trigger] stored_below(
                messages,
                cursor,
                x,
            ) by {
                let m = choose|m: int| 0 <= m < scans.len() && (#[trigger] scans[m]).contains(x);
                lemma_type_scan(self@, types@[m], cursor);
            }
            assert forall|i: int|
                0 <= i < messages.len() && (#[trigger] messages[i]).seq < cursor implies (
            merged@.contains(messages[i].seq) <==> types@.contains(messages[i].ty)) by {
                let x = messages[i].seq;
                if merged@.contains(x) {
                    let m = choose|m: int|
                        0 <= m < scans.len() && (#[trigger] scans[m]).contains(x);
                    lemma_type_scan(self@, types@[m], cursor);
                    assert(types@[m] == messages[i].ty);
                }
                if types@.contains(messages[i].ty) {
                    let m = choose|m: int| 0 <= m < types@.len() && types@[m] == messages[i].ty;
                    lemma_type_scan(self@, types@[m], cursor);
                    assert(scans[m].contains(x));
                }
            }
        }
        merged
    }

    /// The table of the stream for the kinds that a query lists, where it lists any.
    fn type_table(&self, filter: &MessagesFilter, cursor: u64) -> (merged: Result<
        Option<Vec<IndexEntry>>,
        DbError,
    >)
        requires
            self.wf(),
        ensures
            match merged {
                Ok(Some(table)) => filter.types is Some && filter_valid(*filter) && type_table_says(
                    self@.messages,
                    cursor,
                    *filter,
                    table@,
                ),
                Ok(None) => filter.types is None,
                Err(error) => !filter_valid(*filter) && error == (DbError {
                    reason: Reason::UnknownMessageType,
                }),
            },
    {
        match &filter.types {
            Some(text) => {
                let types = match parse_types(text.as_str().as_bytes()) {
                    Ok(types) => types,
                    Err(error) => {
                        return Err(error);
                    },
                };
                let merged = self.type_stream(&types, cursor);
                proof {
                    assert forall|i: int| 0 <= i < merged@.len() implies merged@[i] < cursor by {
                        assert(merged@.contains(merged@[i]));
                        assert(stored_below(self@.messages, cursor, merged@[i]));
                    }
                }
                Ok(Some(table_of(&merged, cursor)))
            },
            None => Ok(None),
        }
    }

    /// Opens the scans of a query, one for each filter that is set.
    fn open_streams<'a>(
        &'a self,
        filter: &MessagesFilter,
        cursor: u64,
        merged: &'a Option<Vec<IndexEntry>>,
    ) -> (sources: Vec<IndexCursor<'a>>)
        requires
            self.wf(),
            filtered(*filter),
            match merged {
                Some(table) => filter.types is Some && type_table_says(
                    self@.messages,
                    cursor,
                    *filter,
                    table@,
                ),
                None => filter.types is None,
            },
        ensures
            sources@.len() > 0,
            forall|k: int| 0 <= k < sources@.len() ==> (#[trigger] sources@[k]).wf(),
            streams_stand_for(
                self@.messages,
                cursor,
                remaining_views(sources@),
                |m: MessageRecord| filters_hold(m, *filter),
            ),
    {
        let ghost messages = self@.messages;
        let mut sources: Vec<IndexCursor<'a>> = Vec::new();
        let ghost of_type = |m: MessageRecord| type_wanted(m, filter.types);
        let ghost of_sender = |m: MessageRecord| of_type(m) && sender_wanted(m, filter.incoming);
        let ghost of_initiator = |m: MessageRecord|
            of_sender(m) && initiator_wanted(m, filter.source_type);
        let ghost of_address = |m: MessageRecord|
            of_initiator(m) && address_wanted(m, filter.remote_addr);
        let ghost nothing = |m: MessageRecord| true;
        proof {
            lemma_indexes_ascending(self@);
        }
        assert(streams_stand_for(messages, cursor, remaining_views(sources@), nothing));

        match merged {
            Some(table) => {
                let ghost before = remaining_views(sources@);
                let scan = IndexCursor::open(table, IndexKey { value: 0, extra: 0 }, cursor);
                proof {
                    scan.lemma_remaining();
                    lemma_add_stream(
                        messages,
                        cursor,
                        before,
                        nothing,
                        scan.remaining(),
                        of_type,
                        |m: MessageRecord| type_wanted(m, filter.types),
                    );
                }
                sources.push(scan);
                proof {
                    assert(remaining_views(sources@) =~= before.push(scan.remaining()));
                }
            },
            None => {
                proof {
                    lemma_same_streams(
                        messages,
                        cursor,
                        remaining_views(sources@),
                        nothing,
                        of_type,
                    );
                }
            },
        }
        assert(streams_stand_for(messages, cursor, remaining_views(sources@), of_type));
        assert(filter.types is Some ==> sources@.len() > 0);

        match filter.incoming {
            Some(incoming) => {
                let sender = Sender::new(incoming);
                let key = IndexKey::of_sender(sender);
                let ghost before = remaining_views(sources@);
                let scan = IndexCursor::open(&self.by_sender, key, cursor);
                proof {
                    lemma_sender_scan(self@, sender, cursor);
                    lemma_add_stream(
                        messages,
                        cursor,
                        before,
                        of_type,
                        scan.remaining(),
                        of_sender,
                        |m: MessageRecord| m.sender == sender,
                    );
                }
                sources.push(scan);
                proof {
                    assert(remaining_views(sources@) =~= before.push(scan.remaining()));
                }
            },
            None => {
                proof {
                    lemma_same_streams(
                        messages,
                        cursor,
                        remaining_views(sources@),
                        of_type,
                        of_sender,
                    );
                }
            },
        }
        assert(streams_stand_for(messages, cursor, remaining_views(sources@), of_sender));
        assert(filter.types is Some || filter.incoming is Some ==> sources@.len() > 0);

        match filter.source_type {
            Some(initiator) => {
                let key = IndexKey::of_initiator(initiator);
                let ghost before = remaining_views(sources@);
                let scan = IndexCursor::open(&self.by_initiator, key, cursor);
                proof {
                    lemma_initiator_scan(self@, initiator, cursor);
                    lemma_add_stream(
                        messages,
                        cursor,
                        before,
                        of_sender,
                        scan.remaining(),
                        of_initiator,
                        |m: MessageRecord| m.initiator == initiator,
                    );
                }
                sources.push(scan);
                proof {
                    assert(remaining_views(sources@) =~= before.push(scan.remaining()));
                }
            },
            None => {
                proof {
                    lemma_same_streams(
                        messages,
                        cursor,
                        remaining_views(sources@),
                        of_sender,
                        of_initiator,
                    );
                }
            },
        }
        assert(streams_stand_for(messages, cursor, remaining_views(sources@), of_initiator));
        assert(filter.types is Some || filter.incoming is Some || filter.source_type is Some
            ==> sources@.len() > 0);

        match filter.remote_addr {
            Some(addr) => {
                let key = IndexKey::of_address(addr);
                let ghost before = remaining_views(sources@);
                let scan = IndexCursor::open(&self.by_address, key, cursor);
                proof {
                    lemma_address_scan(self@, addr, cursor);
                    lemma_add_stream(
                        messages,
                        cursor,
                        before,
                        of_initiator,
                        scan.remaining(),
                        of_address,
                        |m: MessageRecord| m.remote_addr == addr,
                    );
                }
                sources.push(scan);
                proof {
                    assert(remaining_views(sources@) =~= before.push(scan.remaining()));
                }
            },
            None => {
                proof {
                    lemma_same_streams(
                        messages,
                        cursor,
                        remaining_views(sources@),
                        of_initiator,
                        of_address,
                    );
                }
            },
        }
        assert(streams_stand_for(messages, cursor, remaining_views(sources@), of_address));
        proof {
            lemma_same_streams(
                messages,
                cursor,
                remaining_views(sources@),
                of_address,
                |m: MessageRecord| filters_hold(m, *filter),
            );
        }
        sources
    }

    /// Looks the numbers of a page up in the message table. A number that the
    /// table does not hold is passed over.
    fn look_up(&self, numbers: &Vec<u64>, Ghost(rows): Ghost<Seq<MessageRecord>>) -> (page: Vec<
        MessageFrontend,
    >)
        requires
            self.wf(),
            numbers@ == rows.map_values(|m: MessageRecord| m.seq),
            forall|j: int| 0 <= j < rows.len() ==> self@.messages.contains(#[trigger] rows[j]),
        ensures
            message_listing(page@) == rows,
    {
        let ghost messages = self@.messages;
        proof {
            lemma_message_numbers(self@);
            assert(messages.len() == self.messages@.len());
        }
        let first: u64 = self.message_counter - (self.messages.len() as u64);
        let mut page: Vec<MessageFrontend> = Vec::new();
        let mut j: usize = 0;
        proof {
            assert(message_listing(page@) =~= rows.take(0));
        }
        while j < numbers.len()
            invariant
                j <= numbers@.len(),
                self.wf(),
                messages == self@.messages,
                messages.len() == self.messages@.len(),
                numbers@ == rows.map_values(|m: MessageRecord| m.seq),
                first == self.message_counter - self.messages@.len(),
                forall|i: int| 0 <= i < rows.len() ==> messages.contains(#[trigger] rows[i]),
                message_listing(page@) == rows.take(j as int),
            decreases numbers@.len() - j,
        {
            let wanted = numbers[j];
            proof {
                lemma_message_numbers(self@);
                let row = rows[j as int];
                assert(messages.contains(row));
                let i = choose|i: int| 0 <= i < messages.len() && messages[i] == row;
                assert(wanted == row.seq);
                assert(wanted == first + i);
                assert(messages[i] == self.messages@[i]@);
            }
            if wanted >= first && wanted - first < self.messages.len() as u64 {
                let row = &self.messages[(wanted - first) as usize];
                let ghost before = page@;
                page.push(MessageFrontend::new(row.item.duplicate(), row.seq));
                proof {
                    assert(message_listing(page@) =~= message_listing(before).push(row@));
                    assert(rows.take(j + 1) =~= rows.take(j as int).push(row@));
                }
            }
            j += 1;
        }
        proof {
            assert(rows.take(j as int) =~= rows);
        }
        page
    }

    /// Lists the messages that a query asks for, from the newest one down, a page
    /// of them.
    ///
    /// Without a filter the message table is read from the cursor down. With
    /// filters, each filter opens the scan of its index below the cursor, the
    /// scans for the kinds of a list are merged into one stream, and the numbers
    /// that all streams hold are looked up in the message table.
    pub fn fetch_messages(&self, filter: &MessagesFilter) -> (page: Result<
        Vec<MessageFrontend>,
        DbError,
    >)
        requires
            self.wf(),
        ensures
            match page {
                Ok(rows) => filter_valid(*filter) && message_listing(rows@) == first_n(
                    newest_first(self@.messages, |m: MessageRecord| message_wanted(m, *filter)),
                    page_size(filter.limit),
                ),
                Err(error) => !filter_valid(*filter) && error == (DbError {
                    reason: Reason::UnknownMessageType,
                }),
            },
    {
        if filter.remote_addr.is_none() && filter.source_type.is_none()
            && filter.incoming.is_none() && filter.types.is_none() {
            return Ok(self.list_newest(filter));
        }
        let limit = limit_of(filter.limit);
        let cursor: u64 = match filter.cursor {
            Some(bound) => bound,
            None => u64::MAX,
        };
        let merged = match self.type_table(filter, cursor) {
            Ok(merged) => merged,
            Err(error) => {
                return Err(error);
            },
        };
        let mut sources = self.open_streams(filter, cursor, &merged);
        let ghost keep = |m: MessageRecord| message_wanted(m, *filter);
        let ghost number = |m: MessageRecord| m.seq;
        let ghost messages = self@.messages;
        let ghost listed = newest_first(messages, keep);
        let ghost views = remaining_views(sources@);
        proof {
            lemma_message_numbers(self@);
            lemma_streams_answer(
                messages,
                cursor,
                views,
                |m: MessageRecord| filters_hold(m, *filter),
                keep,
            );
            lemma_newest_first_numbers(messages, keep, number);
        }
        let numbers = sorted_intersect(&mut sources, limit);
        let ghost listed_page = first_n(listed, limit as nat);
        proof {
            assert(numbers@ =~= listed_page.map_values(number));
            assert forall|j: int| 0 <= j < listed_page.len() implies messages.contains(
                #[trigger] listed_page[j],
            ) by {
                assert(listed_page[j] == listed[j]);
            }
        }
        Ok(self.look_up(&numbers, Ghost(listed_page)))
    }
}

} // verus!
