//! The message families shared by tracker, seed and leech, the peer address
//! they carry, and the error kinds of the library.

use vstd::prelude::*;

verus! {

/// An IPv4 socket address, written `a.b.c.d:port` on the wire.
#[derive(Clone, Copy, PartialEq, Eq, Structural, Debug)]
pub struct PeerAddr {
    pub a: u8,
    pub b: u8,
    pub c: u8,
    pub d: u8,
    pub port: u16,
}

/// Requests peers send to a tracker.
#[derive(Debug)]
pub enum RequestToTracker {
    GetPeers,
    RegisterAsPeer(PeerAddr),
}

/// Tracker's response to a peer's request (`RequestToTracker`).
#[derive(Debug)]
pub enum TrackerResponse {
    Peers(Vec<PeerAddr>),
    InvalidRequest,
    RegisteredSuccessfully,
}

/// Requests a leech makes to its peers.
#[derive(Debug)]
pub enum LeechRequest {
    GetAvailability,
    GetPackets(usize, usize),
}

/// Seed's response to a leech's request (`LeechRequest`).
///
/// The reply to `GetPackets` is raw packet bytes and never appears here: only
/// availability snapshots and rejections travel as framed messages.
#[derive(Debug)]
pub enum SeedResponse {
    InvalidRequest,
    Availability(bit_vec::BitVec),
}

/// The error kinds of the library.
///
/// `IoError` stands for a resume whose content file does not match the
/// persisted metadata; network and filesystem failures themselves happen
/// outside the library.
#[derive(Clone, Copy, PartialEq, Eq, Structural, Debug)]
pub enum TorrentError {
    IoError,
    CodecError,
    OutOfBounds,
    Unavailable,
}

} // verus!
