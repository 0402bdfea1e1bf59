use tezedge_recorder::common::SocketAddress;
use tezedge_recorder::orchestrator::{Orchestrator, PacketInfo, Route};
use tezedge_recorder::tables::ConnectionKey;

const LOCAL: u128 = 0x0a00_0001;

fn peer(n: u128) -> SocketAddress {
    SocketAddress { ip: 0x0a00_0100 + n, port: 9732 }
}

fn local(port: u16) -> SocketAddress {
    SocketAddress { ip: LOCAL, port }
}

fn incoming(n: u128, closing: bool) -> PacketInfo {
    PacketInfo { source: peer(n), destination: local(9732), closing }
}

fn outgoing(n: u128, closing: bool) -> PacketInfo {
    PacketInfo { source: local(40000), destination: peer(n), closing }
}

#[test]
fn closing_packet_without_live_connection_is_dropped() {
    let mut orchestrator = Orchestrator::new(LOCAL);
    assert_eq!(orchestrator.route(&incoming(1, true)), Route::Drop);
    assert_eq!(orchestrator.live_connections(), 0);
    // No ordinal was spent on it: the first connection still gets the first one.
    assert_eq!(
        orchestrator.route(&incoming(1, false)),
        Route::Spawn { connection: ConnectionKey { remote: peer(1), ordinal: 0 } }
    );
}

#[test]
fn first_packet_of_a_peer_opens_its_connection() {
    let mut orchestrator = Orchestrator::new(LOCAL);
    let key = ConnectionKey { remote: peer(1), ordinal: 0 };
    assert_eq!(orchestrator.route(&incoming(1, false)), Route::Spawn { connection: key });
    assert_eq!(orchestrator.live_connections(), 1);
    assert_eq!(orchestrator.route(&incoming(1, false)), Route::Deliver { connection: key });
    assert_eq!(orchestrator.route(&outgoing(1, false)), Route::Deliver { connection: key });
    assert_eq!(orchestrator.live_connections(), 1);
}

#[test]
fn the_peer_is_the_end_that_is_not_local() {
    let mut orchestrator = Orchestrator::new(LOCAL);
    assert_eq!(
        orchestrator.route(&outgoing(2, false)),
        Route::Spawn { connection: ConnectionKey { remote: peer(2), ordinal: 0 } }
    );
    assert_eq!(
        orchestrator.route(&incoming(3, false)),
        Route::Spawn { connection: ConnectionKey { remote: peer(3), ordinal: 1 } }
    );
    assert_eq!(orchestrator.live_connections(), 2);
}

#[test]
fn closing_packet_goes_to_the_connection_and_ends_it() {
    let mut orchestrator = Orchestrator::new(LOCAL);
    let first = ConnectionKey { remote: peer(1), ordinal: 0 };
    let other = ConnectionKey { remote: peer(2), ordinal: 1 };
    assert_eq!(orchestrator.route(&incoming(1, false)), Route::Spawn { connection: first });
    assert_eq!(orchestrator.route(&incoming(2, false)), Route::Spawn { connection: other });
    assert_eq!(orchestrator.route(&outgoing(1, true)), Route::Close { connection: first });
    assert_eq!(orchestrator.live_connections(), 1);
    // The connection is gone: a second closing packet finds nothing.
    assert_eq!(orchestrator.route(&incoming(1, true)), Route::Drop);
    // The other peer is untouched.
    assert_eq!(orchestrator.route(&incoming(2, false)), Route::Deliver { connection: other });
    // The next packet of the peer opens a new connection under a new ordinal.
    assert_eq!(
        orchestrator.route(&incoming(1, false)),
        Route::Spawn { connection: ConnectionKey { remote: peer(1), ordinal: 2 } }
    );
    assert_eq!(orchestrator.live_connections(), 2);
}

#[test]
fn peers_on_one_host_are_told_apart_by_port() {
    let mut orchestrator = Orchestrator::new(LOCAL);
    let a = SocketAddress { ip: 0x0a00_0200, port: 1000 };
    let b = SocketAddress { ip: 0x0a00_0200, port: 1001 };
    let to = local(9732);
    assert_eq!(
        orchestrator.route(&PacketInfo { source: a, destination: to, closing: false }),
        Route::Spawn { connection: ConnectionKey { remote: a, ordinal: 0 } }
    );
    assert_eq!(
        orchestrator.route(&PacketInfo { source: b, destination: to, closing: false }),
        Route::Spawn { connection: ConnectionKey { remote: b, ordinal: 1 } }
    );
}
