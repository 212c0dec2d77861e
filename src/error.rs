use vstd::prelude::*;

verus! {

/// The errors of the peer engine and the node's configuration.
#[derive(Debug, Clone, Copy, PartialEq, Eq, Structural)]
pub enum NetworkError {
    PeerAddressIsLocalAddress,
    PeerAlreadyConnected,
    PeerAlreadyDisconnected,
    PeerAlreadyExists,
    PeerBookMissingPeer,
    PeerCountInvalid,
    PeerIsDisconnected,
    PeerIsMissingNonce,
    PeerNonceMismatch,
    SyncIntervalInvalid,
}

} // verus!
