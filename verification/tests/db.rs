use tezedge_recorder::common::{Initiator, MessageType, Sender, SocketAddress};
use tezedge_recorder::db::{
    ChunksFilter, ConnectionsFilter, Db, DbError, LogsFilter, Reason,
};
use tezedge_recorder::query::{parse_types, read_filter, split_list, AddressText, MessagesFilter};
use tezedge_recorder::text::{parse_number, split_bytes};
use tezedge_recorder::tables::{
    ChunkItem, ChunkKey, ChunkValue, ConnectionItem, ConnectionKey, ConnectionValue, IndexKey,
    LogItem, MessageFrontend, MessageItem,
};

const X: SocketAddress = SocketAddress { ip: 0x7f00_0001, port: 9732 };
const Y: SocketAddress = SocketAddress { ip: 0x7f00_0002, port: 9732 };
const LOCAL: SocketAddress = SocketAddress { ip: 0x0a00_0001, port: 4000 };

fn connection(remote: SocketAddress, ordinal: u64) -> ConnectionKey {
    ConnectionKey { remote, ordinal }
}

fn message(ty: MessageType, remote_addr: SocketAddress) -> MessageItem {
    MessageItem {
        connection: connection(remote_addr, 0),
        ty,
        sender: Sender::Remote,
        initiator: Initiator::Local,
        remote_addr,
        raw: vec![1, 2, 3],
        decoded: vec![4, 5],
    }
}

fn messages_filter() -> MessagesFilter {
    MessagesFilter {
        limit: None,
        cursor: None,
        remote_addr: None,
        source_type: None,
        incoming: None,
        types: None,
    }
}

fn ids(page: Result<Vec<MessageFrontend>, DbError>) -> Vec<u64> {
    page.unwrap().iter().map(|row| row.id).collect()
}

/// Messages 10 (advertise, X), 11 (bootstrap, X) and 12 (advertise, Y).
fn three_messages() -> Db {
    let mut db = Db::open(10, 0);
    assert_eq!(db.store_message(message(MessageType::Advertise, X)), Ok(10));
    assert_eq!(db.store_message(message(MessageType::Bootstrap, X)), Ok(11));
    assert_eq!(db.store_message(message(MessageType::Advertise, Y)), Ok(12));
    db
}

#[test]
fn query_by_type_lists_the_messages_of_the_type_newest_first() {
    let db = three_messages();
    let filter = MessagesFilter {
        types: Some("advertise".to_string()),
        limit: Some(10),
        ..messages_filter()
    };
    assert_eq!(ids(db.fetch_messages(&filter)), vec![12, 10]);
}

#[test]
fn query_by_type_and_address_lists_what_both_hold_of() {
    let db = three_messages();
    let filter = MessagesFilter {
        types: Some("advertise".to_string()),
        remote_addr: Some(X),
        limit: Some(10),
        ..messages_filter()
    };
    assert_eq!(ids(db.fetch_messages(&filter)), vec![10]);
}

#[test]
fn cursor_is_exclusive_with_a_filter() {
    let db = three_messages();
    let by_address = |cursor: u64| MessagesFilter {
        remote_addr: Some(X),
        cursor: Some(cursor),
        limit: Some(10),
        ..messages_filter()
    };
    assert_eq!(ids(db.fetch_messages(&by_address(10))), Vec::<u64>::new());
    assert_eq!(ids(db.fetch_messages(&by_address(11))), vec![10]);
    assert_eq!(ids(db.fetch_messages(&by_address(12))), vec![11, 10]);
    assert_eq!(ids(db.fetch_messages(&by_address(u64::MAX))), vec![11, 10]);
    assert_eq!(ids(db.fetch_messages(&by_address(0))), Vec::<u64>::new());
}

#[test]
fn cursor_is_exclusive_without_a_filter() {
    let db = three_messages();
    let below = |cursor: u64| MessagesFilter { cursor: Some(cursor), ..messages_filter() };
    assert_eq!(ids(db.fetch_messages(&messages_filter())), vec![12, 11, 10]);
    assert_eq!(ids(db.fetch_messages(&below(13))), vec![12, 11, 10]);
    assert_eq!(ids(db.fetch_messages(&below(12))), vec![11, 10]);
    assert_eq!(ids(db.fetch_messages(&below(11))), vec![10]);
    assert_eq!(ids(db.fetch_messages(&below(10))), Vec::<u64>::new());
}

#[test]
fn paging_with_the_last_number_seen_walks_through_all_messages() {
    let mut db = Db::open(0, 0);
    for i in 0..25u64 {
        let ty = if i % 2 == 0 { MessageType::Advertise } else { MessageType::Operation };
        assert_eq!(db.store_message(message(ty, X)), Ok(i));
    }
    let mut seen = Vec::new();
    let mut cursor = None;
    loop {
        let filter = MessagesFilter {
            types: Some("advertise".to_string()),
            limit: Some(4),
            cursor,
            ..messages_filter()
        };
        let page = ids(db.fetch_messages(&filter));
        if page.is_empty() {
            break;
        }
        assert!(page.len() <= 4);
        cursor = page.last().copied();
        seen.extend(page);
    }
    let expected: Vec<u64> = (0..25u64).rev().filter(|i| i % 2 == 0).collect();
    assert_eq!(seen, expected);
}

#[test]
fn list_of_types_merges_the_scans() {
    let mut db = Db::open(100, 0);
    let order = [
        MessageType::Advertise,
        MessageType::Bootstrap,
        MessageType::Operation,
        MessageType::Bootstrap,
        MessageType::Advertise,
        MessageType::CurrentHead,
        MessageType::Advertise,
        MessageType::Bootstrap,
    ];
    for ty in order {
        db.store_message(message(ty, X)).unwrap();
    }
    let of = |types: &str, limit: usize| MessagesFilter {
        types: Some(types.to_string()),
        limit: Some(limit),
        ..messages_filter()
    };
    assert_eq!(ids(db.fetch_messages(&of("advertise,bootstrap", 10))), vec![107, 106, 104, 103, 101, 100]);
    assert_eq!(ids(db.fetch_messages(&of("bootstrap,advertise", 10))), vec![107, 106, 104, 103, 101, 100]);
    assert_eq!(ids(db.fetch_messages(&of("bootstrap,advertise", 3))), vec![107, 106, 104]);
    assert_eq!(ids(db.fetch_messages(&of("operation,current_head", 10))), vec![105, 102]);
    // A kind that is named twice does not list its messages twice.
    assert_eq!(ids(db.fetch_messages(&of("operation,operation", 10))), vec![102]);
    assert_eq!(ids(db.fetch_messages(&of("metadata", 10))), Vec::<u64>::new());
}

#[test]
fn unknown_type_is_a_request_error() {
    let db = three_messages();
    for types in ["no_such_type", "", "advertise,", ",advertise", "advertise,,bootstrap", "Advertise", "advertise ", "unknown"] {
        let filter = MessagesFilter { types: Some(types.to_string()), ..messages_filter() };
        let error = db.fetch_messages(&filter).unwrap_err();
        assert_eq!(error, DbError { reason: Reason::UnknownMessageType });
        assert!(error.is_request_error());
    }
    // The other filters do not save a list that is wrong.
    let filter = MessagesFilter {
        types: Some("advertise,nothing".to_string()),
        remote_addr: Some(X),
        ..messages_filter()
    };
    assert!(db.fetch_messages(&filter).is_err());
}

#[test]
fn every_type_has_its_name() {
    let names = [
        ("connection_message", MessageType::ConnectionMessage),
        ("metadata", MessageType::Metadata),
        ("ack_message", MessageType::AckMessage),
        ("disconnect", MessageType::Disconnect),
        ("advertise", MessageType::Advertise),
        ("swap_request", MessageType::SwapRequest),
        ("swap_ack", MessageType::SwapAck),
        ("bootstrap", MessageType::Bootstrap),
        ("get_current_branch", MessageType::GetCurrentBranch),
        ("current_branch", MessageType::CurrentBranch),
        ("deactivate", MessageType::Deactivate),
        ("get_current_head", MessageType::GetCurrentHead),
        ("current_head", MessageType::CurrentHead),
        ("get_block_headers", MessageType::GetBlockHeaders),
        ("block_header", MessageType::BlockHeader),
        ("get_operations", MessageType::GetOperations),
        ("operation", MessageType::Operation),
        ("get_protocols", MessageType::GetProtocols),
        ("protocol", MessageType::Protocol),
        ("get_operation_hashes_for_blocks", MessageType::GetOperationHashesForBlocks),
        ("operation_hashes_for_blocks", MessageType::OperationHashesForBlocks),
        ("get_operations_for_blocks", MessageType::GetOperationsForBlocks),
        ("operations_for_blocks", MessageType::OperationsForBlocks),
    ];
    let mut keys = Vec::new();
    for (name, ty) in names {
        assert_eq!(MessageType::from_name(name.as_bytes()), Some(ty));
        assert_eq!(parse_types(name.as_bytes()), Ok(vec![ty]));
        keys.push(IndexKey::of_type(ty));
    }
    keys.push(IndexKey::of_type(MessageType::Unknown));
    for (i, a) in keys.iter().enumerate() {
        for b in &keys[i + 1..] {
            assert_ne!(a, b);
        }
    }
    assert_eq!(MessageType::from_name(b"unknown"), None);
    assert_eq!(
        parse_types(b"protocol,get_protocols,protocol"),
        Ok(vec![MessageType::Protocol, MessageType::GetProtocols, MessageType::Protocol])
    );
}

#[test]
fn list_is_split_at_every_comma() {
    assert_eq!(split_list(b""), vec![Vec::<u8>::new()]);
    assert_eq!(split_list(b"a"), vec![b"a".to_vec()]);
    assert_eq!(split_list(b"ab,c"), vec![b"ab".to_vec(), b"c".to_vec()]);
    assert_eq!(split_list(b",a,,b,"), vec![vec![], b"a".to_vec(), vec![], b"b".to_vec(), vec![]]);
}

#[test]
fn index_keys_tell_the_attribute_values_apart() {
    assert_ne!(IndexKey::of_sender(Sender::Local), IndexKey::of_sender(Sender::Remote));
    assert_ne!(IndexKey::of_initiator(Initiator::Local), IndexKey::of_initiator(Initiator::Remote));
    assert_ne!(IndexKey::of_address(X), IndexKey::of_address(Y));
    assert_ne!(
        IndexKey::of_address(X),
        IndexKey::of_address(SocketAddress { ip: X.ip, port: X.port + 1 })
    );
    assert_eq!(IndexKey::of_address(X), IndexKey { value: 0x7f00_0001, extra: 9732 });
    assert_eq!(Sender::new(true), Sender::Remote);
    assert_eq!(Sender::new(false), Sender::Local);
    assert!(Sender::Remote.incoming());
    assert!(!Sender::Local.incoming());
}

/// A small set of messages that differ in every attribute, and the answer to
/// every combination of filters, worked out by going through all of them.
#[test]
fn every_combination_of_filters_agrees_with_a_full_scan() {
    let types = [MessageType::Advertise, MessageType::Bootstrap, MessageType::CurrentHead];
    let names = ["advertise", "bootstrap", "current_head"];
    let mut db = Db::open(1000, 0);
    let mut stored: Vec<(u64, MessageItem)> = Vec::new();
    for i in 0..60u64 {
        let item = MessageItem {
            connection: connection(if i % 7 < 3 { X } else { Y }, i % 4),
            ty: types[(i % 3) as usize],
            sender: if i % 2 == 0 { Sender::Local } else { Sender::Remote },
            initiator: if i % 5 < 2 { Initiator::Local } else { Initiator::Remote },
            remote_addr: if i % 7 < 3 { X } else { Y },
            raw: vec![i as u8],
            decoded: vec![i as u8, 0],
        };
        let seq = db.store_message(item.duplicate()).unwrap();
        assert_eq!(seq, 1000 + i);
        stored.push((seq, item));
    }
    let type_filters: [Option<&str>; 4] = [None, Some("advertise"), Some("bootstrap,current_head"), Some("metadata")];
    let mut checked = 0;
    for type_filter in type_filters {
        for incoming in [None, Some(true), Some(false)] {
            for source_type in [None, Some(Initiator::Local), Some(Initiator::Remote)] {
                for remote_addr in [None, Some(X), Some(Y), Some(LOCAL)] {
                    for cursor in [None, Some(1030u64), Some(1000), Some(2000)] {
                        for limit in [None, Some(0usize), Some(1), Some(5), Some(1000)] {
                            let expected: Vec<u64> = stored
                                .iter()
                                .rev()
                                .filter(|(seq, item)| {
                                    cursor.map_or(true, |c| *seq < c)
                                        && type_filter.map_or(true, |list| {
                                            list.split(',').any(|name| {
                                                names.iter().position(|n| *n == name).map(|p| types[p])
                                                    == Some(item.ty)
                                            })
                                        })
                                        && incoming.map_or(true, |b| item.sender == Sender::new(b))
                                        && source_type.map_or(true, |s| item.initiator == s)
                                        && remote_addr.map_or(true, |a| item.remote_addr == a)
                                })
                                .map(|(seq, _)| *seq)
                                .take(limit.unwrap_or(100))
                                .collect();
                            let filter = MessagesFilter {
                                limit,
                                cursor,
                                remote_addr,
                                source_type,
                                incoming,
                                types: type_filter.map(|list| list.to_string()),
                            };
                            let page = db.fetch_messages(&filter).unwrap();
                            let got: Vec<u64> = page.iter().map(|row| row.id).collect();
                            assert_eq!(got, expected);
                            for row in &page {
                                let (_, item) = &stored[(row.id - 1000) as usize];
                                assert_eq!(row.message.raw, item.raw);
                                assert_eq!(row.message.decoded, item.decoded);
                                assert_eq!(row.message.ty, item.ty);
                                assert_eq!(row.message.connection, item.connection);
                            }
                            checked += 1;
                        }
                    }
                }
            }
        }
    }
    assert_eq!(checked, 4 * 3 * 3 * 4 * 4 * 5);
}

#[test]
fn default_page_holds_a_hundred_rows() {
    let mut db = Db::open(0, 0);
    for _ in 0..130 {
        db.store_message(message(MessageType::Operation, X)).unwrap();
        db.store_log(LogItem { timestamp: 1, level: 2, text: vec![] }).unwrap();
    }
    assert_eq!(db.fetch_messages(&messages_filter()).unwrap().len(), 100);
    let by_type = MessagesFilter { types: Some("operation".to_string()), ..messages_filter() };
    let page = ids(db.fetch_messages(&by_type));
    assert_eq!(page.len(), 100);
    assert_eq!((page[0], page[99]), (129, 30));
    assert_eq!(db.fetch_log(&LogsFilter { limit: None, cursor: None }).len(), 100);
}

#[test]
fn message_counter_runs_out_at_the_last_number() {
    let mut db = Db::open(u64::MAX - 1, u64::MAX);
    assert_eq!(db.store_message(message(MessageType::Advertise, X)), Ok(u64::MAX - 1));
    let error = db.store_message(message(MessageType::Advertise, X)).unwrap_err();
    assert_eq!(error, DbError { reason: Reason::CounterExhausted });
    assert!(!error.is_request_error());
    assert_eq!(ids(db.fetch_messages(&messages_filter())), vec![u64::MAX - 1]);
    let by_address = MessagesFilter { remote_addr: Some(X), ..messages_filter() };
    assert_eq!(ids(db.fetch_messages(&by_address)), vec![u64::MAX - 1]);
    assert_eq!(
        db.store_log(LogItem { timestamp: 0, level: 0, text: vec![] }),
        Err(DbError { reason: Reason::CounterExhausted })
    );
    assert!(db.fetch_log(&LogsFilter { limit: None, cursor: None }).is_empty());
}

#[test]
fn messages_and_logs_are_counted_apart() {
    let mut db = Db::open(5, 70);
    assert_eq!(db.store_log(LogItem { timestamp: 1, level: 1, text: b"a".to_vec() }), Ok(70));
    assert_eq!(db.store_message(message(MessageType::Advertise, X)), Ok(5));
    assert_eq!(db.store_log(LogItem { timestamp: 2, level: 1, text: b"b".to_vec() }), Ok(71));
    assert_eq!(db.store_message(message(MessageType::Advertise, X)), Ok(6));
}

#[test]
fn log_is_listed_from_the_cursor_down_and_includes_it() {
    let mut db = Db::open(0, 0);
    for i in 0..6u8 {
        assert_eq!(db.store_log(LogItem { timestamp: 100 + i as u64, level: i, text: vec![i] }), Ok(i as u64));
    }
    let levels = |filter: LogsFilter| -> Vec<u8> { db.fetch_log(&filter).iter().map(|l| l.level).collect() };
    assert_eq!(levels(LogsFilter { limit: None, cursor: None }), vec![5, 4, 3, 2, 1, 0]);
    assert_eq!(levels(LogsFilter { limit: Some(2), cursor: None }), vec![5, 4]);
    assert_eq!(levels(LogsFilter { limit: None, cursor: Some(3) }), vec![3, 2, 1, 0]);
    assert_eq!(levels(LogsFilter { limit: Some(2), cursor: Some(3) }), vec![3, 2]);
    assert_eq!(levels(LogsFilter { limit: None, cursor: Some(0) }), vec![0]);
    assert_eq!(levels(LogsFilter { limit: None, cursor: Some(99) }), vec![5, 4, 3, 2, 1, 0]);
    assert_eq!(levels(LogsFilter { limit: Some(0), cursor: None }), Vec::<u8>::new());
    let page = db.fetch_log(&LogsFilter { limit: Some(1), cursor: Some(4) });
    assert_eq!((page[0].timestamp, page[0].text.clone()), (104, vec![4u8]));
}

fn connection_item(remote: SocketAddress, ordinal: u64, closed_at: Option<u64>) -> ConnectionItem {
    ConnectionItem {
        key: connection(remote, ordinal),
        value: ConnectionValue {
            local: LOCAL,
            initiator: Initiator::Remote,
            opened_at: 50,
            closed_at,
            session: 3,
        },
    }
}

#[test]
fn connections_are_listed_in_the_order_of_their_keys() {
    let mut db = Db::open(0, 0);
    // Stored out of order: the listing goes by ordinal, then by host and port.
    db.store_connection(connection_item(X, 2, None));
    db.store_connection(connection_item(Y, 1, None));
    db.store_connection(connection_item(X, 0, None));
    db.store_connection(connection_item(Y, 0, None));
    db.store_connection(connection_item(SocketAddress { ip: X.ip, port: X.port + 1 }, 0, None));
    let keys = |db: &Db, limit: Option<usize>| -> Vec<ConnectionKey> {
        db.fetch_connections(&ConnectionsFilter { limit }).iter().map(|c| c.key).collect()
    };
    let x_next = SocketAddress { ip: X.ip, port: X.port + 1 };
    assert_eq!(
        keys(&db, None),
        vec![connection(X, 0), connection(x_next, 0), connection(Y, 0), connection(Y, 1), connection(X, 2)]
    );
    assert_eq!(keys(&db, Some(2)), vec![connection(X, 0), connection(x_next, 0)]);
    assert_eq!(keys(&db, Some(0)), vec![]);

    // An update replaces the row and leaves it in its place.
    db.update_connection(connection_item(Y, 1, Some(99)));
    let page = db.fetch_connections(&ConnectionsFilter { limit: None });
    assert_eq!(page.len(), 5);
    assert_eq!((page[3].key, page[3].value.closed_at), (connection(Y, 1), Some(99)));
    assert_eq!(page[0].value.closed_at, None);
    // Storing under a key that is there replaces too; an update of a key that is not there adds.
    db.store_connection(connection_item(X, 0, Some(7)));
    db.update_connection(connection_item(Y, 3, None));
    let page = db.fetch_connections(&ConnectionsFilter { limit: None });
    assert_eq!(page.len(), 6);
    assert_eq!(page[0].value.closed_at, Some(7));
    assert_eq!(page[5].key, connection(Y, 3));
    let (key, value) = page[5].split();
    assert_eq!((key, value.session), (connection(Y, 3), 3));
    assert!(connection(X, 0).before(&connection(Y, 0)));
    assert!(connection(Y, 0).before(&connection(X, 1)));
    assert!(!connection(X, 1).before(&connection(X, 1)));
}

fn chunk_item(cn: ConnectionKey, counter: u64, byte: u8) -> ChunkItem {
    ChunkItem {
        key: ChunkKey { connection: cn, counter },
        value: ChunkValue { sender: Sender::Local, bytes: vec![byte; 4] },
    }
}

#[test]
fn chunks_are_listed_by_connection_and_index() {
    let mut db = Db::open(0, 0);
    let a = connection(X, 0);
    let b = connection(Y, 1);
    // The chunks of two connections come in as they interleave in time, and one
    // connection hands its second chunk in before its first.
    db.store_chunk(chunk_item(b, 1, 21));
    db.store_chunk(chunk_item(a, 0, 10));
    db.store_chunk(chunk_item(b, 0, 20));
    db.store_chunk(chunk_item(a, 2, 12));
    db.store_chunk(chunk_item(a, 1, 11));
    let list = |cn: Option<ConnectionKey>, limit: Option<usize>| -> Vec<(u64, u8)> {
        let cn = cn.map(|key| format!("{}-{}-{}", key.ordinal, key.remote.ip, key.remote.port));
        db.fetch_chunks_truncated(&ChunksFilter { limit, cn })
            .unwrap()
            .iter()
            .map(|(key, value)| (key.counter, value.0.bytes[0]))
            .collect()
    };
    assert_eq!(list(None, None), vec![(0, 10), (1, 11), (2, 12), (0, 20), (1, 21)]);
    assert_eq!(list(None, Some(2)), vec![(0, 10), (1, 11)]);
    assert_eq!(list(Some(a), None), vec![(0, 10), (1, 11), (2, 12)]);
    assert_eq!(list(Some(a), Some(2)), vec![(0, 10), (1, 11)]);
    assert_eq!(list(Some(b), Some(5)), vec![(0, 20), (1, 21)]);
    assert_eq!(list(Some(connection(X, 9)), None), vec![]);
    assert_eq!(list(Some(b), Some(0)), vec![]);
    assert_eq!(ChunkKey::begin(a), ChunkKey { connection: a, counter: 0 });
    assert!(ChunkKey { connection: a, counter: 9 }.before(&ChunkKey { connection: b, counter: 0 }));
    assert!(ChunkKey { connection: a, counter: 1 }.before(&ChunkKey { connection: a, counter: 2 }));
    assert!(!ChunkKey { connection: a, counter: 2 }.before(&ChunkKey { connection: a, counter: 2 }));
}

#[test]
fn second_chunk_stored_before_the_first_is_listed_behind_it() {
    let mut db = Db::open(0, 0);
    let a = connection(X, 4);
    db.store_chunk(chunk_item(a, 1, 51));
    db.store_chunk(chunk_item(a, 0, 50));
    let page = db
        .fetch_chunks_truncated(&ChunksFilter { limit: None, cn: Some(format!("4-{}-{}", X.ip, X.port)) })
        .unwrap();
    let counters: Vec<u64> = page.iter().map(|(key, _)| key.counter).collect();
    assert_eq!(counters, vec![0, 1]);
}

#[test]
fn text_that_is_no_connection_key_is_a_request_error() {
    let mut db = Db::open(0, 0);
    db.store_chunk(chunk_item(connection(X, 0), 0, 1));
    for text in ["", "0", "0-1", "0-1-2-3", "a-1-2", "0--2", "0-1-65536", "18446744073709551616-1-2",
        "0-340282366920938463463374607431768211456-2", "0-1-2 ", "-0-1-2", "0x1-1-2"]
    {
        let filter = ChunksFilter { limit: None, cn: Some(text.to_string()) };
        let error = db.fetch_chunks_truncated(&filter).unwrap_err();
        assert_eq!(error, DbError { reason: Reason::InvalidConnectionId });
        assert!(error.is_request_error());
        assert_eq!(ConnectionKey::from_text(text.as_bytes()), None);
    }
    assert_eq!(
        ConnectionKey::from_text(b"18446744073709551615-340282366920938463463374607431768211455-65535"),
        Some(ConnectionKey {
            remote: SocketAddress { ip: u128::MAX, port: u16::MAX },
            ordinal: u64::MAX
        })
    );
    assert_eq!(ConnectionKey::from_text(b"007-0-09"), Some(connection(SocketAddress { ip: 0, port: 9 }, 7)));
    assert_eq!(ConnectionKey::from_text(b"3-2130706433-9732"), Some(connection(X, 3)));
}

#[test]
fn numbers_are_read_in_decimal_up_to_their_bound() {
    assert_eq!(parse_number(b"0", 0), Some(0));
    assert_eq!(parse_number(b"1", 0), None);
    assert_eq!(parse_number(b"255", 255), Some(255));
    assert_eq!(parse_number(b"256", 255), None);
    assert_eq!(parse_number(b"0000255", 255), Some(255));
    assert_eq!(parse_number(b"", 255), None);
    assert_eq!(parse_number(b"12a", 255), None);
    assert_eq!(parse_number(b"+1", 255), None);
    assert_eq!(parse_number(b"340282366920938463463374607431768211455", u128::MAX), Some(u128::MAX));
    assert_eq!(parse_number(b"340282366920938463463374607431768211456", u128::MAX), None);
    assert_eq!(parse_number(b"3402823669209384634633746074317682114550", u128::MAX), None);
    assert_eq!(split_bytes(b"a-b--c", 45), vec![b"a".to_vec(), b"b".to_vec(), vec![], b"c".to_vec()]);
}

#[test]
fn chunk_is_fetched_by_its_key() {
    let mut db = Db::open(0, 0);
    let a = connection(X, 0);
    db.store_chunk(chunk_item(a, 0, 10));
    db.store_chunk(chunk_item(a, 1, 11));
    let found = db.fetch_chunk(&ChunkKey { connection: a, counter: 1 }).unwrap();
    assert_eq!((found.sender, found.bytes), (Sender::Local, vec![11u8; 4]));
    assert!(db.fetch_chunk(&ChunkKey { connection: a, counter: 2 }).is_none());
    assert!(db.fetch_chunk(&ChunkKey { connection: connection(Y, 0), counter: 0 }).is_none());
    // A second store under the key replaces the chunk.
    db.store_chunk(chunk_item(a, 1, 99));
    assert_eq!(db.fetch_chunk(&ChunkKey { connection: a, counter: 1 }).unwrap().bytes, vec![99u8; 4]);
    assert_eq!(db.fetch_chunks_truncated(&ChunksFilter { limit: None, cn: None }).unwrap().len(), 2);
    let (key, value) = chunk_item(a, 3, 1).split();
    assert_eq!((key.counter, value.bytes), (3, vec![1u8; 4]));
}

#[test]
fn stored_message_comes_back_as_it_was_stored() {
    let mut db = Db::open(42, 0);
    let item = MessageItem {
        connection: connection(Y, 8),
        ty: MessageType::GetOperationsForBlocks,
        sender: Sender::Local,
        initiator: Initiator::Remote,
        remote_addr: Y,
        raw: vec![0xde, 0xad],
        decoded: vec![0xbe, 0xef, 0x00],
    };
    assert_eq!(db.store_message(item.duplicate()), Ok(42));
    let filter = MessagesFilter {
        types: Some("get_operations_for_blocks".to_string()),
        incoming: Some(false),
        source_type: Some(Initiator::Remote),
        remote_addr: Some(Y),
        ..messages_filter()
    };
    let page = db.fetch_messages(&filter).unwrap();
    assert_eq!(page.len(), 1);
    assert_eq!(page[0].id, 42);
    assert_eq!(page[0].message.connection, item.connection);
    assert_eq!(page[0].message.ty, item.ty);
    assert_eq!(page[0].message.sender, item.sender);
    assert_eq!(page[0].message.initiator, item.initiator);
    assert_eq!(page[0].message.remote_addr, item.remote_addr);
    assert_eq!(page[0].message.raw, item.raw);
    assert_eq!(page[0].message.decoded, item.decoded);
    // Each filter alone finds it, and each filter for another value does not.
    let miss = [
        MessagesFilter { incoming: Some(true), ..messages_filter() },
        MessagesFilter { source_type: Some(Initiator::Local), ..messages_filter() },
        MessagesFilter { remote_addr: Some(X), ..messages_filter() },
        MessagesFilter { types: Some("get_operations".to_string()), ..messages_filter() },
    ];
    for filter in &miss {
        assert!(db.fetch_messages(filter).unwrap().is_empty());
    }
    let frontend = MessageFrontend::new(item, 7);
    assert_eq!((frontend.id, frontend.message.raw.clone()), (7, vec![0xde, 0xad]));
}

#[test]
fn every_message_has_one_entry_in_each_index() {
    let mut db = Db::open(7, 0);
    let items = [
        message(MessageType::Advertise, X),
        message(MessageType::Bootstrap, Y),
        message(MessageType::Advertise, Y),
        message(MessageType::Unknown, X),
    ];
    for item in &items {
        db.store_message(item.duplicate()).unwrap();
    }
    assert_eq!(db.message_counter(), 11);
    assert_eq!(db.log_counter(), 0);
    for (i, item) in items.iter().enumerate() {
        let seq = 7 + i as u64;
        let indexes = [
            (db.type_index(), IndexKey::of_type(item.ty)),
            (db.sender_index(), IndexKey::of_sender(item.sender)),
            (db.initiator_index(), IndexKey::of_initiator(item.initiator)),
            (db.address_index(), IndexKey::of_address(item.remote_addr)),
        ];
        for (index, key) in indexes {
            let entries: Vec<_> = index.iter().filter(|entry| entry.seq == seq).collect();
            assert_eq!(entries.len(), 1);
            assert_eq!(entries[0].key, key);
        }
    }
    // A message that was refused leaves no entry behind.
    let mut full = Db::open(u64::MAX, 0);
    assert!(full.store_message(message(MessageType::Advertise, X)).is_err());
    assert!(full.type_index().is_empty() && full.address_index().is_empty());
    assert_eq!(full.message_counter(), u64::MAX);
}

#[test]
fn roles_have_their_names() {
    assert_eq!(Initiator::from_name(b"local"), Some(Initiator::Local));
    assert_eq!(Initiator::from_name(b"remote"), Some(Initiator::Remote));
    for name in ["", "Local", "remote ", "localremote", "incoming"] {
        assert_eq!(Initiator::from_name(name.as_bytes()), None);
    }
}

#[test]
fn filters_of_a_query_are_read_from_their_text() {
    let read = read_filter(
        Some(7),
        Some(99),
        AddressText::Read(X),
        Some("remote".to_string()),
        Some(true),
        Some("advertise".to_string()),
    )
    .unwrap();
    assert_eq!((read.limit, read.cursor, read.remote_addr), (Some(7), Some(99), Some(X)));
    assert_eq!((read.source_type, read.incoming), (Some(Initiator::Remote), Some(true)));
    assert_eq!(read.types, Some("advertise".to_string()));
    let read = read_filter(None, None, AddressText::Absent, None, None, None).unwrap();
    assert_eq!((read.limit, read.cursor, read.remote_addr, read.source_type), (None, None, None, None));
    let read = read_filter(Some(u64::MAX), None, AddressText::Absent, Some("local".to_string()), None, None).unwrap();
    assert_eq!((read.limit, read.source_type), (Some(usize::MAX), Some(Initiator::Local)));

    let error = read_filter(None, None, AddressText::Unreadable, None, None, None).unwrap_err();
    assert_eq!(error, DbError { reason: Reason::InvalidAddress });
    assert!(error.is_request_error());
    let error = read_filter(None, None, AddressText::Absent, Some("Local".to_string()), None, None).unwrap_err();
    assert_eq!(error, DbError { reason: Reason::InvalidRole });
    assert!(error.is_request_error());
    // The address is looked at first.
    let error = read_filter(None, None, AddressText::Unreadable, Some("nobody".to_string()), None, None).unwrap_err();
    assert_eq!(error.reason, Reason::InvalidAddress);
}
