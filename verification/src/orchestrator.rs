//! The packet orchestrator: it decides to which connection a captured packet
//! goes, opens a connection for a peer that is seen for the first time, and
//! closes the connection of a peer when its closing packet comes by.
//!
//! The orchestrator only decides. Whoever drives it keeps what belongs to a live
//! connection, hands each packet over as the decision says, and reports a
//! delivery that failed without trying again.

use crate::common::SocketAddress;
use crate::tables::ConnectionKey;
use vstd::prelude::*;

verus! {

/// What the orchestrator reads of a packet.
#[derive(Clone, Copy, Debug)]
pub struct PacketInfo {
    pub source: SocketAddress,
    pub destination: SocketAddress,
    /// Whether the packet closes its stream.
    pub closing: bool,
}

/// What is to be done with a packet.
#[derive(Clone, Copy, PartialEq, Eq, Structural, Debug)]
pub enum Route {
    /// The peer has no live connection and the packet closes one: the packet is dropped.
    Drop,
    /// The packet goes to the live connection of its peer.
    Deliver { connection: ConnectionKey },
    /// The peer is new: a connection is opened for it, and the packet goes to it.
    Spawn { connection: ConnectionKey },
    /// The packet goes to the live connection of its peer, which is live no
    /// longer: the next packet of the peer opens a new one.
    Close { connection: ConnectionKey },
}

/// What the orchestrator holds, as mathematical values.
pub struct OrchestratorState {
    /// The address of the node that is watched.
    pub local: u128,
    /// The live connections.
    pub live: Seq<ConnectionKey>,
    /// The ordinal that the next connection gets.
    pub next_ordinal: u64,
}

/// The peer of a packet: whichever end is not the local address.
pub open spec fn remote_of(local: u128, packet: PacketInfo) -> SocketAddress {
    if packet.source.ip == local {
        packet.destination
    } else {
        packet.source
    }
}

/// Whether a peer has a live connection.
pub open spec fn is_live(live: Seq<ConnectionKey>, remote: SocketAddress) -> bool {
    exists|i: int| 0 <= i < live.len() && (#[trigger] live[i]).remote == remote
}

/// The place of the live connection of a peer.
pub open spec fn place_of(live: Seq<ConnectionKey>, remote: SocketAddress) -> int {
    choose|i: int| 0 <= i < live.len() && (#[trigger] live[i]).remote == remote
}

/// The ordinal after `ordinal`: one more, and zero after the greatest.
pub open spec fn next_ordinal(ordinal: u64) -> u64 {
    if ordinal == u64::MAX {
        0
    } else {
        (ordinal + 1) as u64
    }
}

/// What is to be done with a packet.
pub open spec fn route_of(state: OrchestratorState, packet: PacketInfo) -> Route {
    let remote = remote_of(state.local, packet);
    if is_live(state.live, remote) {
        let connection = state.live[place_of(state.live, remote)];
        if packet.closing {
            Route::Close { connection }
        } else {
            Route::Deliver { connection }
        }
    } else if packet.closing {
        Route::Drop
    } else {
        Route::Spawn { connection: ConnectionKey { remote, ordinal: state.next_ordinal } }
    }
}

/// The orchestrator after it routed a packet.
pub open spec fn routed(state: OrchestratorState, packet: PacketInfo) -> OrchestratorState {
    let remote = remote_of(state.local, packet);
    if is_live(state.live, remote) {
        if packet.closing {
            OrchestratorState {
                live: state.live.remove(place_of(state.live, remote)),
                ..state
            }
        } else {
            state
        }
    } else if packet.closing {
        state
    } else {
        OrchestratorState {
            live: state.live.push(ConnectionKey { remote, ordinal: state.next_ordinal }),
            next_ordinal: next_ordinal(state.next_ordinal),
            ..state
        }
    }
}

/// Whether no peer has two live connections.
pub open spec fn one_per_peer(live: Seq<ConnectionKey>) -> bool {
    forall|i: int, j: int|
        0 <= i < j < live.len() ==> (#[trigger] live[i]).remote != (#[trigger] live[j]).remote
}

/// The orchestrator.
#[derive(Debug)]
pub struct Orchestrator {
    local_address: u128,
    live: Vec<ConnectionKey>,
    next_ordinal: u64,
}

impl View for Orchestrator {
    type V = OrchestratorState;

    closed spec fn view(&self) -> OrchestratorState {
        OrchestratorState {
            local: self.local_address,
            live: self.live@,
            next_ordinal: self.next_ordinal,
        }
    }
}

impl Orchestrator {
    /// Whether the orchestrator is in order: no peer has two live connections.
    pub open spec fn wf(&self) -> bool {
        one_per_peer(self@.live)
    }

    /// An orchestrator for the node at `local_address`, with no live connection.
    pub fn new(local_address: u128) -> (orchestrator: Orchestrator)
        ensures
            orchestrator.wf(),
            orchestrator@ == (OrchestratorState {
                local: local_address,
                live: Seq::empty(),
                next_ordinal: 0,
            }),
    {
        Orchestrator { local_address, live: Vec::new(), next_ordinal: 0 }
    }

    /// The number of live connections.
    pub fn live_connections(&self) -> (n: usize)
        ensures
            n == self@.live.len(),
    {
        self.live.len()
    }

    /// Decides what is to be done with a packet, and takes note of it.
    pub fn route(&mut self, packet: &PacketInfo) -> (route: Route)
        requires
            old(self).wf(),
        ensures
            final(self).wf(),
            route == route_of(old(self)@, *packet),
            final(self)@ == routed(old(self)@, *packet),
    {
        let remote = if packet.source.ip == self.local_address {
            packet.destination
        } else {
            packet.source
        };
        let mut i: usize = 0;
        while i < self.live.len()
            invariant
                i <= self.live@.len(),
                *self == *old(self),
                old(self).wf(),
                remote == remote_of(self@.local, *packet),
                forall|j: int| 0 <= j < i ==> (#[trigger] self.live@[j]).remote != remote,
            decreases self.live@.len() - i,
        {
            if self.live[i].remote == remote {
                let connection = self.live[i];
                proof {
                    let live = old(self)@.live;
                    let at = place_of(live, remote);
                    if at < i {
                        assert(live[at].remote != remote);
                    } else if at > i {
                        assert(live[i as int].remote != live[at].remote);
                    }
                    assert(at == i);
                }
                if packet.closing {
                    self.live.remove(i);
                    proof {
                        let live = old(self)@.live;
                        assert forall|a: int, b: int|
                            0 <= a < b < self.live@.len() implies (#[trigger] self.live@[a]).remote
                            != (#[trigger] self.live@[b]).remote by {
                            let from_a = if a < i { a } else { a + 1 };
                            let from_b = if b < i { b } else { b + 1 };
                            assert(live[from_a].remote != live[from_b].remote);
                        }
                    }
                    return Route::Close { connection };
                }
                return Route::Deliver { connection };
            }
            i += 1;
        }
        if packet.closing {
            return Route::Drop;
        }
        let connection = ConnectionKey { remote, ordinal: self.next_ordinal };
        self.live.push(connection);
        self.next_ordinal = if self.next_ordinal == u64::MAX {
            0
        } else {
            self.next_ordinal + 1
        };
        Route::Spawn { connection }
    }
}

} // verus!
