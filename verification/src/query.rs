//! A query for messages: its filters, the list of kinds that a filter names, and
//! what the streams of the secondary indexes say together.

use crate::common::{initiator_named, type_named, Initiator, MessageType, Sender, SocketAddress};
use crate::db::{DbError, Reason};
use crate::index::{
    ascending, index_scan, lemma_index_scan, lemma_newest_first_numbers, newest_first, scanned,
};
use crate::sorted_intersect::{
    in_all, intersection, lemma_descending_unique, lemma_intersection_members, strictly_descending,
};
use crate::tables::{IndexEntry, IndexKey, MessageRecord};
use crate::text::{name_views, parts_of, split_bytes};
use vstd::prelude::*;
use vstd::string::StringSliceAdditionalSpecFns;
use vstd::utf8::encode_utf8;

verus! {

/// The byte that parts the names of a list: a comma.
pub const SEPARATOR: u8 = 44;

/// Which messages to list.
///
/// A cursor is exclusive: the listing starts below the sequence number that the
/// cursor names, so a caller pages on by handing in the last number it saw.
/// Every filter that is set must hold of a message for it to be listed.
#[derive(Debug)]
pub struct MessagesFilter {
    pub limit: Option<usize>,
    pub cursor: Option<u64>,
    pub remote_addr: Option<SocketAddress>,
    pub source_type: Option<Initiator>,
    pub incoming: Option<bool>,
    /// The names of the kinds to list, parted by commas.
    pub types: Option<String>,
}

/// What the reading of the address of a peer in a query gave.
#[derive(Clone, Copy, Debug)]
pub enum AddressText {
    /// The query names no peer.
    Absent,
    /// The query names a peer by a text that is no address.
    Unreadable,
    /// The query names this peer.
    Read(SocketAddress),
}

/// The limit of a query as a number of rows: the greatest number of rows there is
/// where the limit is beyond it.
pub open spec fn limit_named(limit: Option<u64>) -> Option<usize> {
    match limit {
        Some(rows) => Some(
            if rows > usize::MAX {
                usize::MAX
            } else {
                rows as usize
            },
        ),
        None => None,
    }
}

/// The role that the text of a query names, where it names one.
pub open spec fn role_named(source_type: Option<String>) -> Option<Initiator> {
    match source_type {
        Some(text) => initiator_named(encode_utf8(text@)),
        None => None,
    }
}

/// Reads the filters of a query for messages as they come from outside. An
/// address that could not be read is refused first, then a role that is
/// neither `local` nor `remote`; the list of kinds is read when the query is run.
pub fn read_filter(
    limit: Option<u64>,
    cursor: Option<u64>,
    remote_addr: AddressText,
    source_type: Option<String>,
    incoming: Option<bool>,
    types: Option<String>,
) -> (read: Result<MessagesFilter, DbError>)
    ensures
        remote_addr is Unreadable ==> read == Err::<MessagesFilter, DbError>(
            DbError { reason: Reason::InvalidAddress },
        ),
        !(remote_addr is Unreadable) && source_type is Some && role_named(source_type) is None
            ==> read == Err::<MessagesFilter, DbError>(DbError { reason: Reason::InvalidRole }),
        !(remote_addr is Unreadable) && (source_type is Some ==> role_named(source_type) is Some)
            ==> read == Ok::<MessagesFilter, DbError>(
            MessagesFilter {
                limit: limit_named(limit),
                cursor,
                remote_addr: match remote_addr {
                    AddressText::Read(addr) => Some(addr),
                    _ => None,
                },
                source_type: role_named(source_type),
                incoming,
                types,
            },
        ),
{
    let remote_addr = match remote_addr {
        AddressText::Absent => None,
        AddressText::Unreadable => {
            return Err(DbError { reason: Reason::InvalidAddress });
        },
        AddressText::Read(addr) => Some(addr),
    };
    let source_type = match &source_type {
        Some(text) => match Initiator::from_name(text.as_str().as_bytes()) {
            Some(initiator) => Some(initiator),
            None => {
                return Err(DbError { reason: Reason::InvalidRole });
            },
        },
        None => None,
    };
    let limit = match limit {
        Some(rows) => Some(
            if rows > usize::MAX as u64 {
                usize::MAX
            } else {
                rows as usize
            },
        ),
        None => None,
    };
    Ok(MessagesFilter { limit, cursor, remote_addr, source_type, incoming, types })
}

/// The names of a list: the parts of its text between the commas.
pub open spec fn split_names(text: Seq<u8>) -> Seq<Seq<u8>> {
    parts_of(text, SEPARATOR)
}

/// Whether each of the names stands for a kind of message.
pub open spec fn names_known(names: Seq<Seq<u8>>) -> bool {
    forall|k: int| 0 <= k < names.len() ==> type_named(#[trigger] names[k]) is Some
}

/// The kinds that the names stand for, in the order of the names.
pub open spec fn types_named(names: Seq<Seq<u8>>) -> Seq<MessageType> {
    names.map_values(|name: Seq<u8>| type_named(name)->0)
}

/// Parts a list of names at its commas.
pub fn split_list(text: &[u8]) -> (names: Vec<Vec<u8>>)
    ensures
        name_views(names@) == split_names(text@),
{
    split_bytes(text, SEPARATOR)
}

/// Reads a list of names of kinds, parted by commas. The list is refused as soon
/// as one of its names stands for no kind.
pub fn parse_types(text: &[u8]) -> (parsed: Result<Vec<MessageType>, DbError>)
    ensures
        match parsed {
            Ok(types) => names_known(split_names(text@)) && types@ == types_named(
                split_names(text@),
            ),
            Err(error) => !names_known(split_names(text@)) && error == (DbError {
                reason: Reason::UnknownMessageType,
            }),
        },
{
    let names = split_list(text);
    let ghost parts = split_names(text@);
    let mut types: Vec<MessageType> = Vec::new();
    let mut k: usize = 0;
    while k < names.len()
        invariant
            k <= names@.len(),
            name_views(names@) == parts,
            parts == split_names(text@),
            types@.len() == k,
            forall|m: int| 0 <= m < k ==> type_named(#[trigger] parts[m]) == Some(types@[m]),
        decreases names@.len() - k,
    {
        assert(parts[k as int] == names@[k as int]@);
        match MessageType::from_name(names[k].as_slice()) {
            Some(ty) => {
                types.push(ty);
            },
            None => {
                assert(type_named(parts[k as int]) is None);
                return Err(DbError { reason: Reason::UnknownMessageType });
            },
        }
        k += 1;
    }
    proof {
        assert(types@ =~= types_named(parts));
    }
    Ok(types)
}

/// Whether a message is of one of the kinds that the filter names.
pub open spec fn type_wanted(message: MessageRecord, types: Option<String>) -> bool {
    match types {
        Some(text) => types_named(split_names(encode_utf8(text@))).contains(message.ty),
        None => true,
    }
}

/// Whether a message went the way that the filter asks for.
pub open spec fn sender_wanted(message: MessageRecord, incoming: Option<bool>) -> bool {
    match incoming {
        Some(b) => message.sender == (if b {
            Sender::Remote
        } else {
            Sender::Local
        }),
        None => true,
    }
}

/// Whether the connection of a message was opened by the side that the filter asks for.
pub open spec fn initiator_wanted(message: MessageRecord, source_type: Option<Initiator>) -> bool {
    match source_type {
        Some(initiator) => message.initiator == initiator,
        None => true,
    }
}

/// Whether a message belongs to the peer that the filter asks for.
pub open spec fn address_wanted(message: MessageRecord, remote_addr: Option<SocketAddress>) -> bool {
    match remote_addr {
        Some(addr) => message.remote_addr == addr,
        None => true,
    }
}

/// Whether a message lies below the cursor of the filter.
pub open spec fn below_cursor(message: MessageRecord, cursor: Option<u64>) -> bool {
    match cursor {
        Some(bound) => message.seq < bound,
        None => true,
    }
}

/// Whether a query lists a message: the message lies below the cursor, and every
/// filter that is set holds of it.
pub open spec fn message_wanted(message: MessageRecord, filter: MessagesFilter) -> bool {
    &&& below_cursor(message, filter.cursor)
    &&& type_wanted(message, filter.types)
    &&& sender_wanted(message, filter.incoming)
    &&& initiator_wanted(message, filter.source_type)
    &&& address_wanted(message, filter.remote_addr)
}

/// Whether the names of the kinds in a filter, where it has any, are all known.
pub open spec fn filter_valid(filter: MessagesFilter) -> bool {
    match filter.types {
        Some(text) => names_known(split_names(encode_utf8(text@))),
        None => true,
    }
}

/// Whether the messages are numbered in strictly ascending order.
pub open spec fn numbered(messages: Seq<MessageRecord>) -> bool {
    forall|i: int, j: int| 0 <= i < j < messages.len() ==> messages[i].seq < messages[j].seq
}

/// Whether `x` is the number of a message below the cursor.
pub open spec fn stored_below(messages: Seq<MessageRecord>, cursor: u64, x: u64) -> bool {
    exists|i: int| 0 <= i < messages.len() && (#[trigger] messages[i]).seq == x && x < cursor
}

/// What the streams of a query say together: each is strictly descending and holds
/// numbers of stored messages below the cursor only, and a stored message below
/// the cursor is in all of them exactly when `agreed` holds of it.
pub open spec fn streams_stand_for(
    messages: Seq<MessageRecord>,
    cursor: u64,
    streams: Seq<Seq<u64>>,
    agreed: spec_fn(MessageRecord) -> bool,
) -> bool {
    &&& forall|k: int| 0 <= k < streams.len() ==> strictly_descending(#[trigger] streams[k])
    &&& forall|k: int, x: u64|
        0 <= k < streams.len() && (#[trigger] streams[k]).contains(x) ==> #[trigger] stored_below(
            messages,
            cursor,
            x,
        )
    &&& forall|i: int|
        0 <= i < messages.len() && (#[trigger] messages[i]).seq < cursor ==> (in_all(
            messages[i].seq,
            streams,
        ) <==> agreed(messages[i]))
}

/// One more stream: the streams then stand for what they stood for and for what
/// the new stream holds.
pub proof fn lemma_add_stream(
    messages: Seq<MessageRecord>,
    cursor: u64,
    streams: Seq<Seq<u64>>,
    agreed: spec_fn(MessageRecord) -> bool,
    stream: Seq<u64>,
    both: spec_fn(MessageRecord) -> bool,
    asked: spec_fn(MessageRecord) -> bool,
)
    requires
        streams_stand_for(messages, cursor, streams, agreed),
        strictly_descending(stream),
        forall|x: u64| stream.contains(x) ==> #[trigger] stored_below(messages, cursor, x),
        forall|i: int|
            0 <= i < messages.len() && (#[trigger] messages[i]).seq < cursor ==> (stream.contains(
                messages[i].seq,
            ) <==> asked(messages[i])),
        forall|m: MessageRecord| #[trigger] both(m) <==> agreed(m) && asked(m),
    ensures
        streams_stand_for(messages, cursor, streams.push(stream), both),
{
    let more = streams.push(stream);
    assert forall|k: int| 0 <= k < more.len() implies strictly_descending(#[trigger] more[k]) by {
        if k < streams.len() {
            assert(more[k] == streams[k]);
        }
    }
    assert forall|k: int, x: u64| 0 <= k < more.len() && (#[trigger] more[k]).contains(
        x,
    ) implies #[trigger] stored_below(messages, cursor, x) by {
        if k < streams.len() {
            assert(more[k] == streams[k]);
            assert(streams[k].contains(x));
        }
    }
    assert forall|i: int|
        0 <= i < messages.len() && (#[trigger] messages[i]).seq < cursor implies (in_all(
        messages[i].seq,
        more,
    ) <==> both(messages[i])) by {
        let x = messages[i].seq;
        if in_all(x, more) {
            assert forall|k: int| 0 <= k < streams.len() implies (#[trigger] streams[k]).contains(
                x,
            ) by {
                assert(more[k] == streams[k]);
            }
            assert(more[streams.len() as int].contains(x));
        }
        if both(messages[i]) {
            assert(in_all(x, streams));
            assert forall|k: int| 0 <= k < more.len() implies (#[trigger] more[k]).contains(x) by {
                if k < streams.len() {
                    assert(more[k] == streams[k]);
                }
            }
        }
    }
}

/// A filter that is not set adds no stream, and the streams stand for as much as before.
pub proof fn lemma_same_streams(
    messages: Seq<MessageRecord>,
    cursor: u64,
    streams: Seq<Seq<u64>>,
    agreed: spec_fn(MessageRecord) -> bool,
    both: spec_fn(MessageRecord) -> bool,
)
    requires
        streams_stand_for(messages, cursor, streams, agreed),
        forall|m: MessageRecord| #[trigger] both(m) <==> agreed(m),
    ensures
        streams_stand_for(messages, cursor, streams, both),
{
}

/// The common members of the streams of a query are the numbers of the messages
/// that the query lists, from the newest one down.
pub proof fn lemma_streams_answer(
    messages: Seq<MessageRecord>,
    cursor: u64,
    streams: Seq<Seq<u64>>,
    agreed: spec_fn(MessageRecord) -> bool,
    keep: spec_fn(MessageRecord) -> bool,
)
    requires
        numbered(messages),
        streams.len() > 0,
        streams_stand_for(messages, cursor, streams, agreed),
        forall|i: int|
            0 <= i < messages.len() ==> (keep(#[trigger] messages[i]) <==> messages[i].seq < cursor
                && agreed(messages[i])),
    ensures
        intersection(streams) == newest_first(messages, keep).map_values(|m: MessageRecord| m.seq),
{
    let number = |m: MessageRecord| m.seq;
    let listed = newest_first(messages, keep).map_values(number);
    lemma_intersection_members(streams);
    lemma_newest_first_numbers(messages, keep, number);
    assert forall|x: u64| intersection(streams).contains(x) <==> listed.contains(x) by {
        if intersection(streams).contains(x) {
            assert(in_all(x, streams));
            assert(streams[0].contains(x));
            assert(stored_below(messages, cursor, x));
            let i = choose|i: int|
                0 <= i < messages.len() && (#[trigger] messages[i]).seq == x && x < cursor;
            assert(agreed(messages[i]));
            assert(keep(messages[i]) && number(messages[i]) == x);
        }
        if listed.contains(x) {
            let i = choose|i: int|
                0 <= i < messages.len() && keep(#[trigger] messages[i]) && number(messages[i]) == x;
            assert(messages[i].seq < cursor && agreed(messages[i]));
            assert(in_all(x, streams));
        }
    }
    lemma_descending_unique(intersection(streams), listed);
}

/// What the scan of an index says of the messages, where the index holds at the
/// place of each message an entry with the number of the message, under `key`
/// exactly for the messages that `asked` holds of.
pub proof fn lemma_scan_asks(
    messages: Seq<MessageRecord>,
    table: Seq<IndexEntry>,
    key: IndexKey,
    cursor: u64,
    asked: spec_fn(MessageRecord) -> bool,
)
    requires
        numbered(messages),
        table.len() == messages.len(),
        forall|i: int|
            0 <= i < messages.len() ==> (#[trigger] table[i]).seq == messages[i].seq && (table[i].key
                == key <==> asked(messages[i])),
    ensures
        strictly_descending(index_scan(table, key, cursor)),
        forall|x: u64|
            index_scan(table, key, cursor).contains(x) ==> #[trigger] stored_below(
                messages,
                cursor,
                x,
            ),
        forall|i: int|
            0 <= i < messages.len() && (#[trigger] messages[i]).seq < cursor ==> (index_scan(
                table,
                key,
                cursor,
            ).contains(messages[i].seq) <==> asked(messages[i])),
{
    assert(ascending(table)) by {
        assert forall|i: int, j: int| 0 <= i < j < table.len() implies table[i].seq
            < table[j].seq by {
            assert(messages[i].seq < messages[j].seq);
        }
    }
    lemma_index_scan(table, key, cursor);
    let scan = index_scan(table, key, cursor);
    assert forall|x: u64| scan.contains(x) implies #[trigger] stored_below(messages, cursor, x) by {
        let j = choose|j: int|
            0 <= j < table.len() && scanned(#[trigger] table[j], key, cursor) && table[j].seq == x;
        assert(messages[j].seq == x);
    }
    assert forall|i: int|
        0 <= i < messages.len() && (#[trigger] messages[i]).seq < cursor implies (scan.contains(
        messages[i].seq,
    ) <==> asked(messages[i])) by {
        let x = messages[i].seq;
        if scan.contains(x) {
            let j = choose|j: int|
                0 <= j < table.len() && scanned(#[trigger] table[j], key, cursor) && table[j].seq
                    == x;
            if j < i {
                assert(messages[j].seq < messages[i].seq);
            } else if i < j {
                assert(messages[i].seq < messages[j].seq);
            }
        }
        if asked(messages[i]) {
            assert(scanned(table[i], key, cursor) && table[i].seq == x);
        }
    }
}

} // verus!
