//! The peer: one address and one packet store, shared by its two roles. The
//! seed role answers framed availability and packet requests; the leech role
//! plans which packet to fetch next and from which peer. The sockets, the
//! sleeps and the loops around these decisions live outside the library.

use vstd::prelude::*;

use crate::bitmap::bits_of;
use crate::codec::{
    decode_leech_request, decode_tracker_response, enc_addr_items, enc_availability,
    enc_leech_request, enc_request_to_tracker, encode_request_to_tracker, encode_seed_response,
    tok_bracket_close, tok_msg_invalid, tok_peers_open,
};
use crate::requests::{
    LeechRequest, PeerAddr, RequestToTracker, SeedResponse, TorrentError, TrackerResponse,
};
use crate::torrent_file::TorrentFile;

verus! {

/// What the seed sends back for one request frame: a framed message, or the
/// raw packet bytes that answer `GetPackets`.
pub enum SeedReply {
    Framed(Vec<u8>),
    Raw(Vec<u8>),
}

/// One step of the xorshift pseudorandom number generator.
pub open spec fn spec_xorshift64(s: u64) -> u64 {
    let a = s ^ (s << 13);
    let b = a ^ (a >> 7);
    b ^ (b << 17)
}

/// Pseudorandom number generator from the "Xorshift RNGs" paper by George
/// Marsaglia.
pub fn xorshift64(state: u64) -> (r: u64)
    ensures
        r == spec_xorshift64(state),
{
    let mut r = state;
    r = r ^ (r << 13);
    r = r ^ (r >> 7);
    r = r ^ (r << 17);
    r
}

/// The seed for a packet's peer walk: peers times packet index, so that
/// different packets try the peers in different orders.
pub fn walk_seed(peer_count: usize, packet_index: usize) -> (r: u64)
    ensures
        r == ((peer_count as u64) as int * (packet_index as u64) as int) % 0x10000000000000000,
{
    (peer_count as u64).wrapping_mul(packet_index as u64)
}

/// Advances the generator and picks the next candidate peer.
pub fn pick_candidate(peer_count: usize, state: u64) -> (r: (usize, u64))
    requires
        peer_count > 0,
    ensures
        r.1 == spec_xorshift64(state),
        r.0 == r.1 as int % (peer_count as int),
        r.0 < peer_count,
{
    let next = xorshift64(state);
    let idx = (next % (peer_count as u64)) as usize;
    (idx, next)
}

/// Whether this seed's answer shows it holding packet `i`: a malformed or
/// rejected response counts as not holding it.
pub fn peer_has_packet(resp: &SeedResponse, i: usize) -> (r: bool)
    ensures
        r == match resp {
            SeedResponse::Availability(bv) => i < bits_of(*bv).len() && bits_of(*bv)[i as int],
            SeedResponse::InvalidRequest => false,
        },
{
    match resp {
        SeedResponse::Availability(bv) => {
            match crate::bitmap::bv_get(bv, i) {
                Some(bit) => bit,
                None => false,
            }
        },
        SeedResponse::InvalidRequest => false,
    }
}

/// A peer: its listening address and its packet store.
pub struct Client {
    address: PeerAddr,
    torrent_file: TorrentFile,
}

impl Client {
    pub closed spec fn spec_address(self) -> PeerAddr {
        self.address
    }

    pub closed spec fn spec_store(self) -> TorrentFile {
        self.torrent_file
    }

    pub open spec fn wf(self) -> bool {
        self.spec_store().wf()
    }

    pub fn new(address: PeerAddr, torrent_file: TorrentFile) -> (r: Self)
        ensures
            r.spec_address() == address,
            r.spec_store() == torrent_file,
    {
        Self { address, torrent_file }
    }

    /// The peer's own store, for reads and availability snapshots.
    pub fn torrent_file(&self) -> (r: &TorrentFile)
        ensures
            r == self.spec_store(),
    {
        &self.torrent_file
    }

    /// The peer's own store, for writes; the address never changes.
    pub fn torrent_file_mut(&mut self) -> (r: &mut TorrentFile)
        ensures
            *r == old(self).spec_store(),
            final(self).spec_store() == *final(r),
            final(self).spec_address() == old(self).spec_address(),
    {
        &mut self.torrent_file
    }

    /// The newline-terminated frame that asks the tracker for its peers.
    pub fn peerlist_request_line() -> (r: Vec<u8>)
        ensures
            r@ == enc_request_to_tracker(RequestToTracker::GetPeers) + seq![10u8],
    {
        let mut out = encode_request_to_tracker(&RequestToTracker::GetPeers);
        out.push(10);
        out
    }

    /// The newline-terminated frame that registers this peer at the tracker.
    pub fn register_line(&self) -> (r: Vec<u8>)
        ensures
            r@ == enc_request_to_tracker(
                RequestToTracker::RegisterAsPeer(self.spec_address()),
            ) + seq![10u8],
    {
        let mut out = encode_request_to_tracker(
            &RequestToTracker::RegisterAsPeer(self.address),
        );
        out.push(10);
        out
    }

    /// Reads the tracker's answer to `GetPeers`: the peer list on a `Peers`
    /// response, an error on anything else, a rejection included.
    pub fn parse_peerlist_response(buf: &[u8]) -> (r: Result<Vec<PeerAddr>, TorrentError>)
        ensures
            match r {
                Ok(v) => buf@ == tok_peers_open() + enc_addr_items(v@) + tok_bracket_close(),
                Err(e) => {
                    &&& e == TorrentError::CodecError
                    &&& forall|lv: Vec<PeerAddr>|
                        buf@ != #[trigger] enc_tracker_peers(lv)
                },
            },
    {
        match decode_tracker_response(buf) {
            Ok(TrackerResponse::Peers(v)) => Ok(v),
            Ok(_) => {
                proof {
                    assert forall|lv: Vec<PeerAddr>| buf@ != enc_tracker_peers(lv) by {
                        if buf@ == enc_tracker_peers(lv) {
                            assert(buf@ == crate::codec::enc_tracker_response(
                                TrackerResponse::Peers(lv),
                            ));
                            assert(buf@[0] == tok_peers_open()[0]);
                        }
                    }
                }
                Err(TorrentError::CodecError)
            },
            Err(_) => {
                proof {
                    assert forall|lv: Vec<PeerAddr>| buf@ != enc_tracker_peers(lv) by {
                        if buf@ == enc_tracker_peers(lv) {
                            assert(buf@ == crate::codec::enc_tracker_response(
                                TrackerResponse::Peers(lv),
                            ));
                        }
                    }
                }
                Err(TorrentError::CodecError)
            },
        }
    }

    /// Answers one framed request from a leech: an availability snapshot, the
    /// raw bytes of the asked-for packets, or `InvalidRequest` for a frame
    /// that is malformed or asks for what this peer does not hold.
    pub fn handle_leech_frame(&self, frame: &[u8]) -> (r: SeedReply)
        requires
            self.wf(),
        ensures
            frame@ == enc_leech_request(LeechRequest::GetAvailability) ==> (r matches
                SeedReply::Framed(out) && out@ == enc_availability(self.spec_store().availability())),
            forall|s: usize, c: usize|
                frame@ == #[trigger] enc_leech_request(LeechRequest::GetPackets(s, c)) ==> match r {
                    SeedReply::Raw(bytes) => {
                        &&& s + c <= self.spec_store().spec_packet_count()
                        &&& self.spec_store().all_available(s as int, c as int)
                        &&& bytes@ == self.spec_store().spec_read_bytes(s as int, c as int)
                    },
                    SeedReply::Framed(out) => {
                        &&& !(s + c <= self.spec_store().spec_packet_count()
                            && self.spec_store().all_available(s as int, c as int))
                        &&& out@ == tok_msg_invalid()
                    },
                },
            (forall|m: LeechRequest| frame@ != enc_leech_request(m)) ==> (r matches
                SeedReply::Framed(out) && out@ == tok_msg_invalid()),
    {
        match decode_leech_request(frame) {
            Ok(LeechRequest::GetAvailability) => {
                let snapshot = self.torrent_file.read_packet_availability();
                SeedReply::Framed(encode_seed_response(&SeedResponse::Availability(snapshot)))
            },
            Ok(LeechRequest::GetPackets(start, count)) => {
                match self.torrent_file.read_packets(start, count) {
                    Ok(bytes) => {
                        proof {
                            assert forall|s: usize, c: usize|
                                frame@ == #[trigger] enc_leech_request(
                                    LeechRequest::GetPackets(s, c),
                                ) implies s == start && c == count by {
                                crate::codec::lemma_get_packets_injective(s, c, start, count);
                            }
                        }
                        SeedReply::Raw(bytes)
                    },
                    Err(_) => {
                        proof {
                            assert forall|s: usize, c: usize|
                                frame@ == #[trigger] enc_leech_request(
                                    LeechRequest::GetPackets(s, c),
                                ) implies s == start && c == count by {
                                crate::codec::lemma_get_packets_injective(s, c, start, count);
                            }
                        }
                        SeedReply::Framed(encode_seed_response(&SeedResponse::InvalidRequest))
                    },
                }
            },
            Err(_) => SeedReply::Framed(encode_seed_response(&SeedResponse::InvalidRequest)),
        }
    }
}

/// The bytes of a `Peers` response carrying exactly this list.
pub open spec fn enc_tracker_peers(lv: Vec<PeerAddr>) -> Seq<u8> {
    crate::codec::enc_tracker_response(TrackerResponse::Peers(lv))
}


/// Law: a well-formed peer that holds every packet can refuse no in-range
/// `GetPackets(i, 1)`: by `handle_leech_frame`'s contract its reply is the
/// packet's raw bytes. Together with `lemma_fetch_progress` this gives the
/// leech's termination measure: while such a peer stays reachable, every
/// round fetches a missing packet and shrinks `missing_in` by one.
pub proof fn lemma_full_seed_serves(st: TorrentFile, i: int)
    requires
        st.wf(),
        forall|j: int| 0 <= j < st.spec_packet_count() ==> st.availability()[j],
        0 <= i < st.spec_packet_count(),
    ensures
        st.all_available(i, 1),
        i + 1 <= st.spec_packet_count(),
{
}

/// How many packets are still missing from an availability bitmap.
pub open spec fn missing_in(s: Seq<bool>) -> int
    decreases s.len(),
{
    if s.len() == 0 {
        0
    } else {
        missing_in(s.drop_last()) + if s.last() {
            0int
        } else {
            1int
        }
    }
}

/// Law: fetching a missing packet strictly shrinks the number of missing
/// packets, and a bitmap with nothing missing is all ones. So a leech that
/// keeps obtaining its next missing packet from some peer holding every
/// packet finishes after at most `missing_in` fetches; that such a peer
/// answers at all is for the network layer outside the library.
pub proof fn lemma_fetch_progress(s: Seq<bool>, i: int)
    requires
        0 <= i < s.len(),
        !s[i],
    ensures
        missing_in(s) >= 1,
        missing_in(s.update(i, true)) == missing_in(s) - 1,
    decreases s.len(),
{
    lemma_missing_nonneg(s.drop_last());
    if i == s.len() - 1 {
        assert(s.update(i, true).drop_last() =~= s.drop_last());
        assert(s.update(i, true).last());
    } else {
        lemma_fetch_progress(s.drop_last(), i);
        assert(s.update(i, true).drop_last() =~= s.drop_last().update(i, true));
        assert(s.update(i, true).last() == s.last());
    }
}

/// The missing count is never negative, and zero exactly when every bit is
/// set.
pub proof fn lemma_missing_nonneg(s: Seq<bool>)
    ensures
        missing_in(s) >= 0,
        missing_in(s) == 0 <==> (forall|j: int| 0 <= j < s.len() ==> s[j]),
    decreases s.len(),
{
    if s.len() > 0 {
        lemma_missing_nonneg(s.drop_last());
        if missing_in(s) == 0 {
            assert forall|j: int| 0 <= j < s.len() implies s[j] by {
                if j < s.len() - 1 {
                    assert(s.drop_last()[j] == s[j]);
                }
            }
        } else {
            if forall|j: int| 0 <= j < s.len() ==> s[j] {
                assert forall|j: int| 0 <= j < s.drop_last().len() implies s.drop_last()[j] by {
                    assert(s.drop_last()[j] == s[j]);
                }
                assert(s.last());
            }
        }
    }
}

} // verus!
