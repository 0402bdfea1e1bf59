//! Plain values shared by the connection layer and the store: peer endpoints,
//! the two roles of a connection, and the kinds of message in the peer protocol.

use vstd::prelude::*;
use vstd::string::StringSliceAdditionalSpecFns;

verus! {

/// The endpoint of a peer. An IPv4 address is held in its IPv4-mapped IPv6 form,
/// so that one 128-bit number identifies the host whatever the family.
#[derive(Clone, Copy, PartialEq, Eq, Structural, Debug, Hash)]
pub struct SocketAddress {
    pub ip: u128,
    pub port: u16,
}

/// Which side opened the connection.
#[derive(Clone, Copy, PartialEq, Eq, Structural, Debug, Hash)]
pub enum Initiator {
    Local,
    Remote,
}

/// The role that a name stands for in a query, `None` for any other name.
pub open spec fn initiator_named(name: Seq<u8>) -> Option<Initiator> {
    if name == "local".spec_bytes() {
        Some(Initiator::Local)
    } else if name == "remote".spec_bytes() {
        Some(Initiator::Remote)
    } else {
        None
    }
}

impl Initiator {
    /// The role that `name` stands for.
    pub fn from_name(name: &[u8]) -> (initiator: Option<Initiator>)
        ensures
            initiator == initiator_named(name@),
    {
        if bytes_equal(name, "local".as_bytes()) {
            Some(Initiator::Local)
        } else if bytes_equal(name, "remote".as_bytes()) {
            Some(Initiator::Remote)
        } else {
            None
        }
    }
}

/// Which side sent a chunk or a message.
#[derive(Clone, Copy, PartialEq, Eq, Structural, Debug, Hash)]
pub enum Sender {
    Local,
    Remote,
}

impl Sender {
    /// The sender of a unit of traffic, told from whether it came in from the peer.
    pub fn new(incoming: bool) -> (s: Sender)
        ensures
            s == (if incoming { Sender::Remote } else { Sender::Local }),
    {
        if incoming {
            Sender::Remote
        } else {
            Sender::Local
        }
    }

    /// Whether the unit came in from the peer.
    pub fn incoming(&self) -> (b: bool)
        ensures
            b == (*self == Sender::Remote),
    {
        match self {
            Sender::Remote => true,
            Sender::Local => false,
        }
    }
}

/// The kinds of message that the peer protocol knows: the three handshake
/// messages first, then the application messages.
#[derive(Clone, Copy, PartialEq, Eq, Structural, Debug, Hash)]
pub enum MessageType {
    ConnectionMessage,
    Metadata,
    AckMessage,
    Disconnect,
    Advertise,
    SwapRequest,
    SwapAck,
    Bootstrap,
    GetCurrentBranch,
    CurrentBranch,
    Deactivate,
    GetCurrentHead,
    CurrentHead,
    GetBlockHeaders,
    BlockHeader,
    GetOperations,
    Operation,
    GetProtocols,
    Protocol,
    GetOperationHashesForBlocks,
    OperationHashesForBlocks,
    GetOperationsForBlocks,
    OperationsForBlocks,
    Unknown,
}

/// The kind that a name stands for in a query, `None` for a name that stands for no kind.
/// Names are compared byte for byte; `Unknown` has no name and cannot be asked for.
#[verifier::opaque]
pub open spec fn type_named(name: Seq<u8>) -> Option<MessageType> {
    if name == "connection_message".spec_bytes() {
        Some(MessageType::ConnectionMessage)
    } else if name == "metadata".spec_bytes() {
        Some(MessageType::Metadata)
    } else if name == "ack_message".spec_bytes() {
        Some(MessageType::AckMessage)
    } else if name == "disconnect".spec_bytes() {
        Some(MessageType::Disconnect)
    } else if name == "advertise".spec_bytes() {
        Some(MessageType::Advertise)
    } else if name == "swap_request".spec_bytes() {
        Some(MessageType::SwapRequest)
    } else if name == "swap_ack".spec_bytes() {
        Some(MessageType::SwapAck)
    } else if name == "bootstrap".spec_bytes() {
        Some(MessageType::Bootstrap)
    } else if name == "get_current_branch".spec_bytes() {
        Some(MessageType::GetCurrentBranch)
    } else if name == "current_branch".spec_bytes() {
        Some(MessageType::CurrentBranch)
    } else if name == "deactivate".spec_bytes() {
        Some(MessageType::Deactivate)
    } else if name == "get_current_head".spec_bytes() {
        Some(MessageType::GetCurrentHead)
    } else if name == "current_head".spec_bytes() {
        Some(MessageType::CurrentHead)
    } else if name == "get_block_headers".spec_bytes() {
        Some(MessageType::GetBlockHeaders)
    } else if name == "block_header".spec_bytes() {
        Some(MessageType::BlockHeader)
    } else if name == "get_operations".spec_bytes() {
        Some(MessageType::GetOperations)
    } else if name == "operation".spec_bytes() {
        Some(MessageType::Operation)
    } else if name == "get_protocols".spec_bytes() {
        Some(MessageType::GetProtocols)
    } else if name == "protocol".spec_bytes() {
        Some(MessageType::Protocol)
    } else if name == "get_operation_hashes_for_blocks".spec_bytes() {
        Some(MessageType::GetOperationHashesForBlocks)
    } else if name == "operation_hashes_for_blocks".spec_bytes() {
        Some(MessageType::OperationHashesForBlocks)
    } else if name == "get_operations_for_blocks".spec_bytes() {
        Some(MessageType::GetOperationsForBlocks)
    } else if name == "operations_for_blocks".spec_bytes() {
        Some(MessageType::OperationsForBlocks)
    } else {
        None
    }
}

/// Whether two byte strings hold the same bytes.
pub fn bytes_equal(a: &[u8], b: &[u8]) -> (same: bool)
    ensures
        same == (a@ == b@),
{
    if a.len() != b.len() {
        return false;
    }
    let mut i: usize = 0;
    while i < a.len()
        invariant
            a@.len() == b@.len(),
            i <= a@.len(),
            forall|j: int| 0 <= j < i ==> a@[j] == b@[j],
        decreases a@.len() - i,
    {
        if a[i] != b[i] {
            return false;
        }
        i += 1;
    }
    assert(a@ =~= b@);
    true
}

impl MessageType {
    /// The kind that `name` stands for.
    pub fn from_name(name: &[u8]) -> (ty: Option<MessageType>)
        ensures
            ty == type_named(name@),
    {
        reveal(type_named);
        if bytes_equal(name, "connection_message".as_bytes()) {
            Some(MessageType::ConnectionMessage)
        } else if bytes_equal(name, "metadata".as_bytes()) {
            Some(MessageType::Metadata)
        } else if bytes_equal(name, "ack_message".as_bytes()) {
            Some(MessageType::AckMessage)
        } else if bytes_equal(name, "disconnect".as_bytes()) {
            Some(MessageType::Disconnect)
        } else if bytes_equal(name, "advertise".as_bytes()) {
            Some(MessageType::Advertise)
        } else if bytes_equal(name, "swap_request".as_bytes()) {
            Some(MessageType::SwapRequest)
        } else if bytes_equal(name, "swap_ack".as_bytes()) {
            Some(MessageType::SwapAck)
        } else if bytes_equal(name, "bootstrap".as_bytes()) {
            Some(MessageType::Bootstrap)
        } else if bytes_equal(name, "get_current_branch".as_bytes()) {
            Some(MessageType::GetCurrentBranch)
        } else if bytes_equal(name, "current_branch".as_bytes()) {
            Some(MessageType::CurrentBranch)
        } else if bytes_equal(name, "deactivate".as_bytes()) {
            Some(MessageType::Deactivate)
        } else if bytes_equal(name, "get_current_head".as_bytes()) {
            Some(MessageType::GetCurrentHead)
        } else if bytes_equal(name, "current_head".as_bytes()) {
            Some(MessageType::CurrentHead)
        } else if bytes_equal(name, "get_block_headers".as_bytes()) {
            Some(MessageType::GetBlockHeaders)
        } else if bytes_equal(name, "block_header".as_bytes()) {
            Some(MessageType::BlockHeader)
        } else if bytes_equal(name, "get_operations".as_bytes()) {
            Some(MessageType::GetOperations)
        } else if bytes_equal(name, "operation".as_bytes()) {
            Some(MessageType::Operation)
        } else if bytes_equal(name, "get_protocols".as_bytes()) {
            Some(MessageType::GetProtocols)
        } else if bytes_equal(name, "protocol".as_bytes()) {
            Some(MessageType::Protocol)
        } else if bytes_equal(name, "get_operation_hashes_for_blocks".as_bytes()) {
            Some(MessageType::GetOperationHashesForBlocks)
        } else if bytes_equal(name, "operation_hashes_for_blocks".as_bytes()) {
            Some(MessageType::OperationHashesForBlocks)
        } else if bytes_equal(name, "get_operations_for_blocks".as_bytes()) {
            Some(MessageType::GetOperationsForBlocks)
        } else if bytes_equal(name, "operations_for_blocks".as_bytes()) {
            Some(MessageType::OperationsForBlocks)
        } else {
            None
        }
    }
}

} // verus!
